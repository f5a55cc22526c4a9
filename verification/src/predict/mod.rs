pub mod fixed;
pub mod lpc;
pub mod simd;

use crate::config::{
    level_number, max_lpc_spec, max_porder_spec, rice_search_spec, CompressionLevel, RiceSearch,
};
use crate::decorrelate::stereo::in_i64;
use fixed::{
    compute_fixed_residuals, fixed_pred, fixed_pred_ok, fixed_recon, fixed_recon_ok, fixed_residuals,
    fixed_residuals_ok, lemma_fixed_recon_len, lemma_fixed_roundtrip, reconstruct_fixed,
};
use lpc::{
    compute_lpc_residuals, lemma_lpc_recon_len, lemma_lpc_roundtrip, lpc_pred, lpc_recon,
    lpc_recon_ok, lpc_residuals, lpc_residuals_ok, lpc_shift, lpc_step_ok, lpc_sum, lpc_sum_ok,
    reconstruct_lpc,
};
use crate::decorrelate::stereo::{abs_spec, abs_sum, unsigned_abs};
use crate::entropy::rice::{
    best_rice_upto, bit_len, find_best_k_exhaustive, find_best_k_spec, fold, fold_seq,
    fold_spec, lemma_bit_len_leading_zeros, lemma_part_bounds, lemma_rice_total_prefix,
    part_begin, part_end, rice_bits, rice_cost, rice_costs_fit, rice_stream_fits, rice_total,
};
use vstd::arithmetic::power2::{lemma2_to64, pow2};
use vstd::prelude::*;

verus! {

/// Residuals the bit estimates are made for: at most `2^26` of them, each within `2^36`
/// of zero, so that every bit count below fits in a `u64`.
pub open spec fn res_bounded(s: Seq<i64>) -> bool {
    &&& s.len() <= 0x400_0000
    &&& forall|i: int| 0 <= i < s.len() ==> -0x10_0000_0000 <= #[trigger] s[i] <= 0x10_0000_0000
}

/// The largest Rice code a bounded residual can take, with any parameter below 15.
pub open spec fn max_code_bits() -> nat {
    0x20_0000_000F
}

/// The Rice parameter guessed from the mean magnitude of `s`: `floor(log2(mean))`, at most
/// 14 (0 when the mean is 0).
pub open spec fn est_k_spec(s: Seq<i64>) -> nat {
    let mean = abs_sum(s) / s.len();
    if mean > 0 {
        if bit_len(mean) - 1 < 14 {
            (bit_len(mean) - 1) as nat
        } else {
            14
        }
    } else {
        0
    }
}

/// The fewest Rice bits for `f` over the parameters `lo .. hi` (`u64::MAX` when there is
/// none).
pub open spec fn min_rice_upto(f: Seq<u64>, lo: nat, hi: nat) -> nat
    decreases hi,
{
    if hi <= lo {
        u64::MAX as nat
    } else {
        let m = min_rice_upto(f, lo, (hi - 1) as nat);
        let t = rice_total(f, (hi - 1) as nat);
        if t < m {
            t
        } else {
            m
        }
    }
}

/// The estimated bits of the Rice codes of one nonempty partition under `rs`.
pub open spec fn est_part_bits(s: Seq<i64>, rs: RiceSearch) -> nat {
    let f = fold_seq(s);
    match rs {
        RiceSearch::Exhaustive => find_best_k_spec(f, s).1 as nat,
        RiceSearch::Limited(d) => {
            let e = est_k_spec(s);
            let lo: nat = if e > d {
                (e - d) as nat
            } else {
                0
            };
            let hi: nat = if e + d < 14 {
                (e + d) as nat
            } else {
                14
            };
            min_rice_upto(f, lo, hi + 1)
        },
        RiceSearch::Estimate => rice_total(f, est_k_spec(s)),
    }
}

/// The estimated bits of the first `m` partitions, 4 header bits apiece.
pub open spec fn est_parts(res: Seq<i64>, warmup: nat, porder: nat, rs: RiceSearch, m: nat) -> nat
    decreases m,
{
    if m == 0 {
        0
    } else {
        let p = (m - 1) as nat;
        let b = part_begin(res.len(), porder, warmup, p);
        let e = part_end(res.len(), porder, p);
        est_parts(res, warmup, porder, rs, p) + if b >= e {
            4
        } else {
            4 + est_part_bits(res.subrange(b as int, e as int), rs)
        }
    }
}

/// The estimated size of the residual coding with `2^porder` partitions: a 6-bit header
/// and the partitions, or 0 when only warm-up samples are left.
pub open spec fn est_bits_spec(res: Seq<i64>, warmup: nat, porder: nat, rs: RiceSearch) -> nat {
    if res.len() <= warmup {
        0
    } else {
        6 + est_parts(res, warmup, porder, rs, pow2(porder))
    }
}

/// The samples the first `p` partitions reach up to.
pub open spec fn covered(total: nat, porder: nat, p: nat) -> nat {
    if p == 0 {
        0
    } else {
        part_end(total, porder, (p - 1) as nat)
    }
}

proof fn lemma_fold_bounded(s: Seq<i64>)
    requires
        res_bounded(s),
    ensures
        forall|i: int| 0 <= i < s.len() ==> #[trigger] fold_seq(s)[i] <= 0x20_0000_0000,
{
    assert forall|i: int| 0 <= i < s.len() implies #[trigger] fold_seq(s)[i] <= 0x20_0000_0000 by {
        assert(-0x10_0000_0000 <= s[i] <= 0x10_0000_0000);
    }
}

proof fn lemma_rice_total_bound(f: Seq<u64>, k: nat)
    requires
        k <= 14,
        forall|i: int| 0 <= i < f.len() ==> #[trigger] f[i] <= 0x20_0000_0000,
    ensures
        rice_total(f, k) <= f.len() * max_code_bits(),
    decreases f.len(),
{
    if f.len() > 0 {
        let g = f.drop_last();
        assert forall|i: int| 0 <= i < g.len() implies #[trigger] g[i] <= 0x20_0000_0000 by {
            assert(g[i] == f[i]);
        }
        lemma_rice_total_bound(g, k);
        vstd::arithmetic::power2::lemma_pow2_pos(k);
        let v = f.last();
        assert(v <= 0x20_0000_0000);
        assert(v as nat / pow2(k) <= v) by {
            vstd::arithmetic::div_mod::lemma_div_is_ordered_by_denominator(v as int, 1, pow2(k) as int);
        }
        assert(rice_cost(v, k) <= max_code_bits());
        assert(g.len() * max_code_bits() + max_code_bits() == f.len() * max_code_bits()) by (nonlinear_arith)
            requires
                g.len() + 1 == f.len(),
        ;
    }
}

proof fn lemma_bounded_fits(s: Seq<i64>)
    requires
        res_bounded(s),
    ensures
        rice_costs_fit(fold_seq(s)),
        forall|k: nat| k <= 14 ==> #[trigger] rice_total(fold_seq(s), k) <= s.len() * max_code_bits(),
{
    lemma_fold_bounded(s);
    let f = fold_seq(s);
    assert forall|k: nat| k <= 14 implies #[trigger] rice_total(f, k) <= s.len() * max_code_bits() by {
        lemma_rice_total_bound(f, k);
    }
    assert(s.len() * max_code_bits() <= 0x400_0000 * max_code_bits()) by (nonlinear_arith)
        requires
            s.len() <= 0x400_0000,
    ;
    assert forall|k: nat| k < 15 implies #[trigger] rice_total(f, k) <= u64::MAX by {
        lemma_rice_total_bound(f, k);
    }
}

proof fn lemma_best_rice_le(f: Seq<u64>, m: nat, j: nat)
    requires
        j < m,
    ensures
        best_rice_upto(f, m).1 <= rice_total(f, j),
    decreases m,
{
    if j < m - 1 {
        lemma_best_rice_le(f, (m - 1) as nat, j);
    }
}

proof fn lemma_abs_sum_prefix(s: Seq<i64>, i: int)
    requires
        0 <= i <= s.len(),
    ensures
        abs_sum(s.take(i)) <= abs_sum(s),
    decreases s.len(),
{
    if i < s.len() {
        assert(s.drop_last().take(i) =~= s.take(i));
        lemma_abs_sum_prefix(s.drop_last(), i);
    } else {
        assert(s.take(i) =~= s);
    }
}

proof fn lemma_abs_sum_bound(s: Seq<i64>)
    requires
        forall|i: int| 0 <= i < s.len() ==> -0x10_0000_0000 <= #[trigger] s[i] <= 0x10_0000_0000,
    ensures
        abs_sum(s) <= s.len() * 0x10_0000_0000,
    decreases s.len(),
{
    if s.len() > 0 {
        let g = s.drop_last();
        assert forall|i: int| 0 <= i < g.len() implies -0x10_0000_0000 <= #[trigger] g[i]
            <= 0x10_0000_0000 by {
            assert(g[i] == s[i]);
        }
        lemma_abs_sum_bound(g);
        assert(s[s.len() - 1] == s.last());
        assert(g.len() * 0x10_0000_0000 + 0x10_0000_0000 == s.len() * 0x10_0000_0000) by (nonlinear_arith)
            requires
                g.len() + 1 == s.len(),
        ;
    }
}

proof fn lemma_est_part_bound(s: Seq<i64>, rs: RiceSearch)
    requires
        res_bounded(s),
        s.len() > 0,
    ensures
        est_part_bits(s, rs) <= s.len() * max_code_bits(),
{
    lemma_bounded_fits(s);
    let f = fold_seq(s);
    match rs {
        RiceSearch::Exhaustive => {
            lemma_best_rice_le(f, 15, 0);
            assert(rice_total(f, 0) <= s.len() * max_code_bits());
        },
        RiceSearch::Limited(d) => {
            let e = est_k_spec(s);
            let hi: nat = if e + d < 14 {
                (e + d) as nat
            } else {
                14
            };
            assert(rice_total(f, hi) <= s.len() * max_code_bits());
        },
        RiceSearch::Estimate => {
            assert(rice_total(f, est_k_spec(s)) <= s.len() * max_code_bits());
        },
    }
}

fn fold_all(s: &[i64]) -> (f: Vec<u64>)
    ensures
        f@ == fold_seq(s@),
{
    let mut f: Vec<u64> = Vec::with_capacity(s.len());
    let mut i: usize = 0;
    while i < s.len()
        invariant
            i <= s@.len(),
            f@ =~= fold_seq(s@).take(i as int),
        decreases s@.len() - i,
    {
        f.push(fold(s[i]));
        i = i + 1;
    }
    proof {
        assert(f@ =~= fold_seq(s@));
    }
    f
}

fn rice_total_exec(f: &[u64], k: u32) -> (r: u64)
    requires
        k < 15,
        rice_total(f@, k as nat) <= u64::MAX,
    ensures
        r == rice_total(f@, k as nat),
{
    let mut bits = 0u64;
    let mut i: usize = 0;
    proof {
        lemma2_to64();
        assert(f@.take(0) =~= Seq::<u64>::empty());
    }
    while i < f.len()
        invariant
            i <= f@.len(),
            k < 15,
            rice_total(f@, k as nat) <= u64::MAX,
            bits as nat == rice_total(f@.take(i as int), k as nat),
        decreases f@.len() - i,
    {
        proof {
            assert(f@.take(i + 1).drop_last() =~= f@.take(i as int));
            lemma_rice_total_prefix(f@, i + 1, k as nat);
        }
        bits = bits + rice_bits(f[i], k);
        i = i + 1;
    }
    proof {
        assert(f@.take(f@.len() as int) =~= f@);
    }
    bits
}

fn abs_total(s: &[i64]) -> (r: u64)
    requires
        abs_sum(s@) <= u64::MAX,
    ensures
        r == abs_sum(s@),
{
    let mut sum = 0u64;
    let mut i: usize = 0;
    proof {
        assert(s@.take(0) =~= Seq::<i64>::empty());
    }
    while i < s.len()
        invariant
            i <= s@.len(),
            abs_sum(s@) <= u64::MAX,
            sum as nat == abs_sum(s@.take(i as int)),
        decreases s@.len() - i,
    {
        proof {
            assert(s@.take(i + 1).drop_last() =~= s@.take(i as int));
            lemma_abs_sum_prefix(s@, i + 1);
        }
        sum = sum + unsigned_abs(s[i]);
        i = i + 1;
    }
    proof {
        assert(s@.take(s@.len() as int) =~= s@);
    }
    sum
}

fn est_k(s: &[i64]) -> (r: u32)
    requires
        res_bounded(s@),
        s@.len() > 0,
    ensures
        r == est_k_spec(s@),
        r <= 14,
{
    proof {
        lemma_abs_sum_bound(s@);
        assert(s@.len() * 0x10_0000_0000 <= 0x400_0000 * 0x10_0000_0000) by (nonlinear_arith)
            requires
                s@.len() <= 0x400_0000,
        ;
    }
    let mean_abs = abs_total(s) / (s.len() as u64);
    if mean_abs > 0 {
        proof {
            lemma_bit_len_leading_zeros(mean_abs);
        }
        let b = 63 - mean_abs.leading_zeros();
        if b < 14 {
            b
        } else {
            14
        }
    } else {
        0
    }
}

/// The estimated bits of the partition holding `residuals[b..e]`, 4 header bits included.
fn estimate_part(residuals: &[i64], b: usize, e: usize, rice_search: RiceSearch) -> (r: u64)
    requires
        b < e <= residuals@.len(),
        res_bounded(residuals@),
    ensures
        r == 4 + est_part_bits(residuals@.subrange(b as int, e as int), rice_search),
        r <= 4 + (e - b) * max_code_bits(),
{
    let slice = &residuals[b..e];
    let ghost s = slice@;
    proof {
        assert(s == residuals@.subrange(b as int, e as int));
        assert forall|i: int| 0 <= i < s.len() implies -0x10_0000_0000 <= #[trigger] s[i]
            <= 0x10_0000_0000 by {
            assert(s[i] == residuals@[b + i]);
        }
        lemma_bounded_fits(s);
        lemma_est_part_bound(s, rice_search);
        assert((e - b) * max_code_bits() <= 0x400_0000 * max_code_bits()) by (nonlinear_arith)
            requires
                e - b <= 0x400_0000,
        ;
    }
    let folded = fold_all(slice);
    match rice_search {
        RiceSearch::Exhaustive => {
            let (_, bits, _) = find_best_k_exhaustive(&folded, slice);
            4 + bits
        },
        RiceSearch::Limited(dist) => {
            let ek = est_k(slice);
            let start_k: u32 = if ek > dist {
                ek - dist
            } else {
                0
            };
            let end_k: u32 = if (ek as u64) + (dist as u64) < 14 {
                ek + dist
            } else {
                14
            };
            let mut min_bits = u64::MAX;
            let mut k = start_k;
            while k <= end_k
                invariant
                    start_k <= k <= end_k + 1,
                    end_k <= 14,
                    folded@ == fold_seq(s),
                    forall|j: nat| j <= 14 ==> #[trigger] rice_total(fold_seq(s), j) <= s.len()
                        * max_code_bits(),
                    s.len() * max_code_bits() <= u64::MAX,
                    min_bits as nat == min_rice_upto(folded@, start_k as nat, k as nat),
                decreases end_k + 1 - k,
            {
                let bits = rice_total_exec(&folded, k);
                if bits < min_bits {
                    min_bits = bits;
                }
                k = k + 1;
            }
            4 + min_bits
        },
        RiceSearch::Estimate => {
            let k = est_k(slice);
            let bits = rice_total_exec(&folded, k);
            4 + bits
        },
    }
}

proof fn lemma_covered_step(total: nat, porder: nat, warmup: nat, p: nat)
    requires
        p < pow2(porder),
        part_begin(total, porder, warmup, p) < part_end(total, porder, p),
    ensures
        covered(total, porder, p) <= part_begin(total, porder, warmup, p),
        covered(total, porder, p + 1) == part_end(total, porder, p),
{
    if p > 0 {
        assert(p - 1 + 1 != pow2(porder));
    }
}

proof fn lemma_covered_le(total: nat, porder: nat, p: nat)
    requires
        p <= pow2(porder),
    ensures
        covered(total, porder, p) <= total,
{
    if p > 0 {
        lemma_part_bounds(total, pow2(porder), (p - 1) as nat);
    }
}

proof fn lemma_est_step(t: nat, p: nat, c: nat, c2: nat, len: nat)
    requires
        t <= 6 + 4 * p + c * max_code_bits(),
        c + len <= c2,
    ensures
        t + 4 + len * max_code_bits() <= 6 + 4 * (p + 1) + c2 * max_code_bits(),
{
    assert(c * max_code_bits() + len * max_code_bits() <= c2 * max_code_bits()) by (nonlinear_arith)
        requires
            c + len <= c2,
    ;
}

proof fn lemma_est_cap(p: nat, c: nat)
    requires
        p <= 0x8000,
        c <= 0x400_0000,
    ensures
        6 + 4 * p + c * max_code_bits() <= 0xFFFF_FFFF_0000_0000,
{
    assert(c * max_code_bits() <= 0x400_0000 * max_code_bits()) by (nonlinear_arith)
        requires
            c <= 0x400_0000,
    ;
}

/// Estimates the bits of the partitioned Rice coding of `residuals` (from `warmup_len`
/// on) with `2^partition_order` partitions, without writing it.
pub fn estimate_residual_bits(
    residuals: &[i64],
    warmup_len: usize,
    partition_order: u32,
    rice_search: RiceSearch,
    _bps: usize,
) -> (r: u64)
    requires
        partition_order < 16,
        res_bounded(residuals@),
    ensures
        r == est_bits_spec(residuals@, warmup_len as nat, partition_order as nat, rice_search),
        r <= 0xFFFF_FFFF_0000_0000,
{
    let total_len = residuals.len();
    if total_len <= warmup_len {
        return 0;
    }
    proof {
        vstd::bits::lemma_u64_pow2_no_overflow(partition_order as nat);
        lemma2_to64();
        vstd::arithmetic::power2::lemma_pow2_strictly_increases(partition_order as nat, 16);
    }
    let num_partitions: usize = 1 << partition_order;
    proof {
        assert(1usize << (partition_order as usize) == pow2(partition_order as nat)) by {
            vstd::bits::lemma_usize_shl_is_mul(1, partition_order as usize);
        }
    }
    let ghost res = residuals@;
    let ghost po = partition_order as nat;
    let partition_samples = total_len / num_partitions;
    let mut total_bits: u64 = 6;
    let mut p: usize = 0;
    while p < num_partitions
        invariant
            p <= num_partitions,
            num_partitions == pow2(po),
            num_partitions <= 0x8000,
            po == partition_order,
            res == residuals@,
            res_bounded(res),
            total_len == res.len(),
            partition_samples == total_len / num_partitions,
            total_bits == 6 + est_parts(res, warmup_len as nat, po, rice_search, p as nat),
            total_bits <= 6 + 4 * p + covered(total_len as nat, po, p as nat) * max_code_bits(),
        decreases num_partitions - p,
    {
        proof {
            lemma_part_bounds(total_len as nat, num_partitions as nat, p as nat);
        }
        let start = p * partition_samples;
        let mut end = start + partition_samples;
        if p == num_partitions - 1 {
            end = total_len;
        }
        let p_start = if p == 0 {
            if start > warmup_len {
                start
            } else {
                warmup_len
            }
        } else {
            start
        };
        let ghost b = part_begin(total_len as nat, po, warmup_len as nat, p as nat);
        let ghost e = part_end(total_len as nat, po, p as nat);
        proof {
            assert(p_start == b);
            assert(end == e);
            lemma_covered_le(total_len as nat, po, (p + 1) as nat);
            lemma_est_cap((p + 1) as nat, covered(total_len as nat, po, (p + 1) as nat));
        }
        if p_start >= end {
            proof {
                if p > 0 {
                    assert(p - 1 + 1 != pow2(po));
                    assert(covered(total_len as nat, po, (p + 1) as nat) >= covered(
                        total_len as nat,
                        po,
                        p as nat,
                    ));
                }
                assert(covered(total_len as nat, po, p as nat) * max_code_bits() <= covered(
                    total_len as nat,
                    po,
                    (p + 1) as nat,
                ) * max_code_bits()) by (nonlinear_arith)
                    requires
                        p == 0 || covered(total_len as nat, po, (p + 1) as nat) >= covered(
                            total_len as nat,
                            po,
                            p as nat,
                        ),
                        p == 0 ==> covered(total_len as nat, po, p as nat) == 0,
                ;
            }
            total_bits = total_bits + 4;
        } else {
            let bits = estimate_part(residuals, p_start, end, rice_search);
            proof {
                lemma_covered_step(total_len as nat, po, warmup_len as nat, p as nat);
                lemma_est_step(
                    (total_bits - 6) as nat + 6,
                    p as nat,
                    covered(total_len as nat, po, p as nat),
                    covered(total_len as nat, po, (p + 1) as nat),
                    (end - p_start) as nat,
                );
            }
            total_bits = total_bits + bits;
        }
        p = p + 1;
    }
    total_bits
}

/// The partition order in `0 .. m` with the smallest estimate (the first on ties), and that
/// estimate (`u64::MAX` when `m` is 0).
pub open spec fn best_porder_upto(
    res: Seq<i64>,
    warmup: nat,
    rs: RiceSearch,
    m: nat,
) -> (nat, nat)
    decreases m,
{
    if m == 0 {
        (0, u64::MAX as nat)
    } else {
        let (o, b) = best_porder_upto(res, warmup, rs, (m - 1) as nat);
        let t = est_bits_spec(res, warmup, (m - 1) as nat, rs);
        if t < b {
            ((m - 1) as nat, t)
        } else {
            (o, b)
        }
    }
}

/// Tries every partition order up to `max_order` and returns the cheapest (the first on
/// ties) with its estimated bits.
pub fn find_best_partition_order(
    residuals: &[i64],
    warmup_len: usize,
    max_order: u32,
    rice_search: RiceSearch,
    bps: usize,
) -> (r: (u32, u64))
    requires
        max_order < 16,
        res_bounded(residuals@),
    ensures
        r.0 as nat == best_porder_upto(residuals@, warmup_len as nat, rice_search, max_order as nat + 1).0,
        r.1 as nat == best_porder_upto(residuals@, warmup_len as nat, rice_search, max_order as nat + 1).1,
        r.1 <= 0xFFFF_FFFF_0000_0000,
{
    let mut best_order: u32 = 0;
    let mut min_bits = u64::MAX;
    let mut order: u32 = 0;
    while order <= max_order
        invariant
            order <= max_order + 1,
            max_order < 16,
            res_bounded(residuals@),
            best_order as nat == best_porder_upto(residuals@, warmup_len as nat, rice_search, order as nat).0,
            min_bits as nat == best_porder_upto(residuals@, warmup_len as nat, rice_search, order as nat).1,
            order > 0 ==> min_bits <= 0xFFFF_FFFF_0000_0000,
        decreases max_order + 1 - order,
    {
        let bits = estimate_residual_bits(residuals, warmup_len, order, rice_search, bps);
        if bits < min_bits {
            min_bits = bits;
            best_order = order;
        }
        order = order + 1;
    }
    (best_order, min_bits)
}


/// How a block is predicted, with what a decoder needs to undo it.
#[derive(Clone, Debug)]
pub enum PredictionMode {
    /// Every sample has this value.
    Constant(i64),
    /// The samples as they are.
    Verbatim(Vec<i64>),
    /// A fixed polynomial predictor and its residuals.
    Fixed { order: usize, residuals: Vec<i64> },
    /// A quantized LPC predictor and its residuals.
    Lpc {
        order: usize,
        qlp_coeffs: Vec<i32>,
        qlp_shift: i8,
        qlp_precision: usize,
        residuals: Vec<i64>,
    },
}

/// What a `PredictionMode` holds, as plain values.
pub enum ModeSpec {
    Constant(i64),
    Verbatim(Seq<i64>),
    Fixed(nat, Seq<i64>),
    Lpc(nat, Seq<i32>, i8, nat, Seq<i64>),
}

impl View for PredictionMode {
    type V = ModeSpec;

    open spec fn view(&self) -> ModeSpec {
        match self {
            PredictionMode::Constant(v) => ModeSpec::Constant(*v),
            PredictionMode::Verbatim(s) => ModeSpec::Verbatim(s@),
            PredictionMode::Fixed { order, residuals } => ModeSpec::Fixed(*order as nat, residuals@),
            PredictionMode::Lpc { order, qlp_coeffs, qlp_shift, qlp_precision, residuals } =>
                ModeSpec::Lpc(
                *order as nat,
                qlp_coeffs@,
                *qlp_shift,
                *qlp_precision as nat,
                residuals@,
            ),
        }
    }
}

/// A quantized LPC coefficient set for the predictor search to try.
#[derive(Clone, Debug)]
pub struct LpcCandidate {
    pub qlp_coeffs: Vec<i32>,
    pub qlp_shift: i8,
    pub qlp_precision: usize,
}

/// What the predictor search settles on; `Lpc(j, i)` is candidate `i` of order group `j`.
pub enum SearchPick {
    Constant,
    Verbatim,
    Fixed(nat),
    Lpc(nat, nat),
}

/// The LPC orders searched, group by group: 2, 4, .., 16, then 20, 24, 28, 32.
pub open spec fn lpc_order_spec(j: nat) -> nat {
    if j < 8 {
        2 * (j + 1)
    } else {
        (16 + 4 * (j - 7)) as nat
    }
}

/// Samples the predictor search takes: at most `2^26` of them, each within `2^32` of zero
/// (a 32-bit channel, or the side channel of a 31-bit pair).
pub open spec fn pcm_bounded(s: Seq<i64>) -> bool {
    &&& s.len() <= 0x400_0000
    &&& forall|i: int| 0 <= i < s.len() ==> -0x1_0000_0000 <= #[trigger] s[i] <= 0x1_0000_0000
}

/// Every sample equals the first.
pub open spec fn is_constant(s: Seq<i64>) -> bool {
    forall|i: int| 0 <= i < s.len() ==> #[trigger] s[i] == s[0]
}

/// The estimated size of a block coded with fixed order `o`: warm-up samples and residuals.
pub open spec fn fixed_total(s: Seq<i64>, bps: nat, rs: RiceSearch, mpo: nat, o: nat) -> nat {
    o * bps + best_porder_upto(fixed_residuals(s, o), o, rs, mpo + 1).1
}

/// The pick and its size after trying fixed orders `0 .. m` against a verbatim block (an
/// order longer than the block is not tried).
pub open spec fn fixed_stage(s: Seq<i64>, bps: nat, rs: RiceSearch, mpo: nat, m: nat) -> (
    SearchPick,
    nat,
)
    decreases m,
{
    if m == 0 {
        (SearchPick::Verbatim, s.len() * bps)
    } else {
        let (pk, mb) = fixed_stage(s, bps, rs, mpo, (m - 1) as nat);
        let o = (m - 1) as nat;
        if o > s.len() {
            (pk, mb)
        } else {
            let t = fixed_total(s, bps, rs, mpo, o);
            if t < mb {
                (SearchPick::Fixed(o), t)
            } else {
                (pk, mb)
            }
        }
    }
}

/// A candidate of the given order the search can use: as many coefficients as the order,
/// each within `2^14` of zero, a shift of 0 to 15, a precision of 1 to 15, and residuals
/// within the estimate's range.
pub open spec fn cand_usable(s: Seq<i64>, c: LpcCandidate, order: nat) -> bool {
    &&& order <= s.len()
    &&& c.qlp_coeffs@.len() == order
    &&& 0 <= c.qlp_shift <= 15
    &&& 1 <= c.qlp_precision <= 15
    &&& forall|j: int| 0 <= j < order ==> -0x4000 <= #[trigger] c.qlp_coeffs@[j] <= 0x4000
    &&& res_bounded(lpc_residuals(s, c.qlp_coeffs@, c.qlp_shift, order))
}

/// The estimated size of a block coded with candidate `c`: warm-up samples, precision and
/// shift fields, coefficients and residuals.
pub open spec fn cand_total(
    s: Seq<i64>,
    bps: nat,
    rs: RiceSearch,
    mpo: nat,
    order: nat,
    c: LpcCandidate,
) -> nat {
    (order * bps + 9 + order * c.qlp_precision + best_porder_upto(
        lpc_residuals(s, c.qlp_coeffs@, c.qlp_shift, order),
        order,
        rs,
        mpo + 1,
    ).1) as nat
}

/// The cheapest usable candidate among the first `m` of `cs` (the first on ties) and its
/// size (`u64::MAX` when none is usable).
pub open spec fn best_cand(
    s: Seq<i64>,
    bps: nat,
    rs: RiceSearch,
    mpo: nat,
    order: nat,
    cs: Seq<LpcCandidate>,
    m: nat,
) -> (nat, nat)
    decreases m,
{
    if m == 0 {
        (0, u64::MAX as nat)
    } else {
        let (bi, bt) = best_cand(s, bps, rs, mpo, order, cs, (m - 1) as nat);
        let c = cs[m - 1];
        if !cand_usable(s, c, order) {
            (bi, bt)
        } else {
            let t = cand_total(s, bps, rs, mpo, order, c);
            if t < bt {
                ((m - 1) as nat, t)
            } else {
                (bi, bt)
            }
        }
    }
}

/// The candidates of order group `j` (none past the end).
pub open spec fn group(cands: Seq<Vec<LpcCandidate>>, j: nat) -> Seq<LpcCandidate> {
    if j < cands.len() {
        cands[j as int]@
    } else {
        Seq::empty()
    }
}

/// The pick, its size, the best size of the last order group with a usable candidate, and
/// whether the search has stopped, after order groups `0 .. m`. The search stops at the
/// first order above `maxlpc`, and past order 10 once the last group's best improves on the
/// pick by less than 1%.
pub open spec fn lpc_stage(
    s: Seq<i64>,
    bps: nat,
    rs: RiceSearch,
    mpo: nat,
    maxlpc: nat,
    cands: Seq<Vec<LpcCandidate>>,
    m: nat,
    pk0: SearchPick,
    mb0: nat,
) -> (SearchPick, nat, nat, bool)
    decreases m,
{
    if m == 0 {
        (pk0, mb0, u64::MAX as nat, false)
    } else {
        let (pk, mb, prev, stop) = lpc_stage(s, bps, rs, mpo, maxlpc, cands, (m - 1) as nat, pk0, mb0);
        let j = (m - 1) as nat;
        let order = lpc_order_spec(j);
        if stop {
            (pk, mb, prev, stop)
        } else if order > maxlpc {
            (pk, mb, prev, true)
        } else if order > 10 && prev != u64::MAX && (if mb > prev {
            mb - prev
        } else {
            0
        }) < prev / 100 {
            (pk, mb, prev, true)
        } else {
            let g = group(cands, j);
            let (bi, bt) = best_cand(s, bps, rs, mpo, order, g, g.len());
            if bt < u64::MAX {
                if bt < mb {
                    (SearchPick::Lpc(j, bi), bt, bt, false)
                } else {
                    (pk, mb, bt, false)
                }
            } else {
                (pk, mb, prev, false)
            }
        }
    }
}

/// What the predictor search picks for `s` at `level`, given LPC candidates grouped by
/// order: a constant block as such; else the cheapest of verbatim, the fixed orders (only
/// order 0 when the level searches no LPC), and the LPC groups.
pub open spec fn search_pick(
    s: Seq<i64>,
    bps: nat,
    level: CompressionLevel,
    cands: Seq<Vec<LpcCandidate>>,
) -> SearchPick {
    let rs = rice_search_spec(level);
    let mpo = max_porder_spec(level);
    if is_constant(s) {
        SearchPick::Constant
    } else if max_lpc_spec(level) == 0 {
        fixed_stage(s, bps, rs, mpo, 1).0
    } else {
        let (pk, mb) = fixed_stage(s, bps, rs, mpo, 5);
        lpc_stage(s, bps, rs, mpo, max_lpc_spec(level), cands, 12, pk, mb).0
    }
}

/// `m` is the prediction `pk` stands for.
pub open spec fn mode_is(
    m: PredictionMode,
    pk: SearchPick,
    s: Seq<i64>,
    cands: Seq<Vec<LpcCandidate>>,
) -> bool {
    match pk {
        SearchPick::Constant => m == PredictionMode::Constant(s[0]),
        SearchPick::Verbatim => m matches PredictionMode::Verbatim(v) && v@ == s,
        SearchPick::Fixed(o) => m matches PredictionMode::Fixed { order, residuals } && order == o
            && residuals@ == fixed_residuals(s, o),
        SearchPick::Lpc(j, i) => m matches PredictionMode::Lpc {
            order,
            qlp_coeffs,
            qlp_shift,
            qlp_precision,
            residuals,
        } && order == lpc_order_spec(j) && qlp_coeffs@ == group(cands, j)[i as int].qlp_coeffs@
            && qlp_shift == group(cands, j)[i as int].qlp_shift && qlp_precision == group(
            cands,
            j,
        )[i as int].qlp_precision && residuals@ == lpc_residuals(
            s,
            qlp_coeffs@,
            qlp_shift,
            order as nat,
        ),
    }
}

proof fn lemma_fixed_bounded(s: Seq<i64>, o: nat)
    requires
        pcm_bounded(s),
        o <= 4,
    ensures
        fixed_residuals_ok(s, o),
        res_bounded(fixed_residuals(s, o)),
{
    assert forall|i: int| o <= i < s.len() implies #[trigger] fixed_pred_ok(s, i, o) && in_i64(
        s[i] - fixed_pred(s, i, o),
    ) && -0x10_0000_0000 <= s[i] - fixed_pred(s, i, o) <= 0x10_0000_0000 by {
        assert(-0x1_0000_0000 <= s[i] <= 0x1_0000_0000);
        if o >= 1 {
            assert(-0x1_0000_0000 <= s[i - 1] <= 0x1_0000_0000);
        }
        if o >= 2 {
            assert(-0x1_0000_0000 <= s[i - 2] <= 0x1_0000_0000);
        }
        if o >= 3 {
            assert(-0x1_0000_0000 <= s[i - 3] <= 0x1_0000_0000);
        }
        if o >= 4 {
            assert(-0x1_0000_0000 <= s[i - 4] <= 0x1_0000_0000);
        }
    }
    let r = fixed_residuals(s, o);
    assert forall|i: int| 0 <= i < r.len() implies -0x10_0000_0000 <= #[trigger] r[i]
        <= 0x10_0000_0000 by {
        assert(-0x1_0000_0000 <= s[i] <= 0x1_0000_0000);
        if i >= o {
            assert(fixed_pred_ok(s, i, o));
        }
    }
}

proof fn lemma_term_bound(c: i32, x: i64)
    requires
        -0x4000 <= c <= 0x4000,
        -0x1_0000_0000 <= x <= 0x1_0000_0000,
    ensures
        -0x4000_0000_0000 <= c as int * x as int <= 0x4000_0000_0000,
{
    assert(-0x4000_0000_0000 <= c as int * x as int <= 0x4000_0000_0000) by (nonlinear_arith)
        requires
            -0x4000 <= c <= 0x4000,
            -0x1_0000_0000 <= x <= 0x1_0000_0000,
    ;
}

proof fn lemma_lpc_sum_bound(c: Seq<i32>, s: Seq<i64>, i: int, m: nat)
    requires
        m <= c.len(),
        m <= i <= s.len(),
        forall|j: int| 0 <= j < c.len() ==> -0x4000 <= #[trigger] c[j] <= 0x4000,
        forall|j: int| 0 <= j < s.len() ==> -0x1_0000_0000 <= #[trigger] s[j] <= 0x1_0000_0000,
    ensures
        -(m * 0x4000_0000_0000) <= lpc_sum(c, s, i, m) <= m * 0x4000_0000_0000,
    decreases m,
{
    if m > 0 {
        lemma_lpc_sum_bound(c, s, i, (m - 1) as nat);
        lemma_term_bound(c[m - 1], s[i - m]);
    }
}

proof fn lemma_shift_bound(x: i64, sh: i8)
    requires
        -0x8_0000_0000_0000 <= x <= 0x8_0000_0000_0000,
        0 <= sh <= 15,
    ensures
        -0x8_0000_0000_0000 <= lpc_shift(x, sh) <= 0x8_0000_0000_0000,
{
    let k = sh as u32;
    assert(-0x8_0000_0000_0000 <= x <= 0x8_0000_0000_0000 && k <= 15 ==> -0x8_0000_0000_0000
        <= (x >> k) <= 0x8_0000_0000_0000) by (bit_vector);
}

proof fn lemma_lpc_ok(s: Seq<i64>, c: Seq<i32>, shift: i8, order: nat)
    requires
        pcm_bounded(s),
        c.len() == order,
        order <= 32,
        0 <= shift <= 15,
        forall|j: int| 0 <= j < order ==> -0x4000 <= #[trigger] c[j] <= 0x4000,
    ensures
        lpc_residuals_ok(s, c, shift, order),
{
    assert forall|i: int| order <= i < s.len() implies #[trigger] lpc_sum_ok(c, s, i, order)
        && in_i64(s[i] - lpc_pred(c, s, i, order, shift)) by {
        assert forall|m: nat| m < order implies #[trigger] lpc_step_ok(c, s, i, m) by {
            lemma_lpc_sum_bound(c, s, i, m + 1);
            lemma_term_bound(c[m as int], s[i - 1 - m]);
        }
        lemma_lpc_sum_bound(c, s, i, order);
        let sum = lpc_sum(c, s, i, order);
        assert(-0x8_0000_0000_0000 <= sum <= 0x8_0000_0000_0000);
        lemma_shift_bound(sum as i64, shift);
        assert(-0x1_0000_0000 <= s[i] <= 0x1_0000_0000);
    }
}

/// A copy of `s`.
pub(crate) fn copy_samples(s: &[i64]) -> (r: Vec<i64>)
    ensures
        r@ == s@,
{
    let mut v: Vec<i64> = Vec::with_capacity(s.len());
    let mut i: usize = 0;
    while i < s.len()
        invariant
            i <= s@.len(),
            v@ == s@.take(i as int),
        decreases s@.len() - i,
    {
        v.push(s[i]);
        proof {
            assert(v@ =~= s@.take(i + 1));
        }
        i = i + 1;
    }
    proof {
        assert(s@.take(s@.len() as int) =~= s@);
    }
    v
}

fn is_constant_exec(samples: &[i64]) -> (r: bool)
    requires
        samples@.len() > 0,
    ensures
        r == is_constant(samples@),
{
    let first = samples[0];
    let mut i: usize = 0;
    while i < samples.len()
        invariant
            i <= samples@.len(),
            first == samples@[0],
            forall|j: int| 0 <= j < i ==> #[trigger] samples@[j] == first,
        decreases samples@.len() - i,
    {
        if samples[i] != first {
            return false;
        }
        i = i + 1;
    }
    true
}

pub(crate) fn all_within(res: &[i64]) -> (r: bool)
    ensures
        r == forall|i: int| 0 <= i < res@.len() ==> -0x10_0000_0000 <= #[trigger] res@[i]
            <= 0x10_0000_0000,
{
    let mut i: usize = 0;
    while i < res.len()
        invariant
            i <= res@.len(),
            forall|j: int| 0 <= j < i ==> -0x10_0000_0000 <= #[trigger] res@[j] <= 0x10_0000_0000,
        decreases res@.len() - i,
    {
        if res[i] < -0x10_0000_0000 || res[i] > 0x10_0000_0000 {
            return false;
        }
        i = i + 1;
    }
    true
}

fn coeffs_within(c: &[i32]) -> (r: bool)
    ensures
        r == forall|j: int| 0 <= j < c@.len() ==> -0x4000 <= #[trigger] c@[j] <= 0x4000,
{
    let mut i: usize = 0;
    while i < c.len()
        invariant
            i <= c@.len(),
            forall|j: int| 0 <= j < i ==> -0x4000 <= #[trigger] c@[j] <= 0x4000,
        decreases c@.len() - i,
    {
        if c[i] < -0x4000 || c[i] > 0x4000 {
            return false;
        }
        i = i + 1;
    }
    true
}

fn fixed_search(samples: &[i64], bps: usize, rs: RiceSearch, mpo: u32, nfix: usize) -> (r: (
    PredictionMode,
    u64,
))
    requires
        pcm_bounded(samples@),
        bps <= 64,
        mpo < 16,
        nfix <= 5,
    ensures
        mode_is(r.0, fixed_stage(samples@, bps as nat, rs, mpo as nat, nfix as nat).0, samples@, seq![]),
        fixed_stage(samples@, bps as nat, rs, mpo as nat, nfix as nat).0 is Verbatim || fixed_stage(
            samples@,
            bps as nat,
            rs,
            mpo as nat,
            nfix as nat,
        ).0 is Fixed,
        r.1 == fixed_stage(samples@, bps as nat, rs, mpo as nat, nfix as nat).1,
        r.1 <= 0xFFFF_FFFF_0001_0000,
{
    let n = samples.len();
    proof {
        assert(n * bps <= 0x400_0000 * 64) by (nonlinear_arith)
            requires
                n <= 0x400_0000,
                bps <= 64,
        ;
    }
    let mut best_mode = PredictionMode::Verbatim(copy_samples(samples));
    assert(n * bps <= 0x1_0000_0000) by (nonlinear_arith)
        requires
            n <= 0x400_0000,
            bps <= 64,
    ;
    let mut min_bits: u64 = (n as u64) * (bps as u64);
    let mut order: usize = 0;
    while order < nfix
        invariant
            order <= nfix,
            nfix <= 5,
            n == samples@.len(),
            pcm_bounded(samples@),
            bps <= 64,
            mpo < 16,
            mode_is(best_mode, fixed_stage(samples@, bps as nat, rs, mpo as nat, order as nat).0, samples@, seq![]),
            fixed_stage(samples@, bps as nat, rs, mpo as nat, order as nat).0 is Verbatim
                || fixed_stage(samples@, bps as nat, rs, mpo as nat, order as nat).0 is Fixed,
            min_bits == fixed_stage(samples@, bps as nat, rs, mpo as nat, order as nat).1,
            min_bits <= 0xFFFF_FFFF_0001_0000,
        decreases nfix - order,
    {
        if order <= n {
            proof {
                lemma_fixed_bounded(samples@, order as nat);
            }
            let residuals = compute_fixed_residuals(samples, order);
            let (_, res_bits) = find_best_partition_order(&residuals, order, mpo, rs, bps);
            assert(order * bps <= 320) by (nonlinear_arith)
                requires
                    order <= 5,
                    bps <= 64,
            ;
            let total_bits = (order * bps) as u64 + res_bits;
            if total_bits < min_bits {
                min_bits = total_bits;
                best_mode = PredictionMode::Fixed { order, residuals };
            }
        }
        order = order + 1;
    }
    (best_mode, min_bits)
}

/// The best usable candidate of `cands` for `order`: its index, residuals and size, or a
/// size of `u64::MAX` when none is usable.
fn best_candidate(
    samples: &[i64],
    bps: usize,
    rs: RiceSearch,
    mpo: u32,
    order: usize,
    cands: &Vec<LpcCandidate>,
) -> (r: (usize, Vec<i64>, u64))
    requires
        pcm_bounded(samples@),
        bps <= 64,
        mpo < 16,
        order <= 32,
    ensures
        r.0 as nat == best_cand(samples@, bps as nat, rs, mpo as nat, order as nat, cands@, cands@.len()).0,
        r.2 as nat == best_cand(samples@, bps as nat, rs, mpo as nat, order as nat, cands@, cands@.len()).1,
        r.2 < u64::MAX ==> r.0 < cands@.len() && cand_usable(samples@, cands@[r.0 as int], order as nat)
            && r.1@ == lpc_residuals(
            samples@,
            cands@[r.0 as int].qlp_coeffs@,
            cands@[r.0 as int].qlp_shift,
            order as nat,
        ),
        r.2 < u64::MAX ==> r.2 <= 0xFFFF_FFFF_0001_0000,
{
    let mut bi: usize = 0;
    let mut bt: u64 = u64::MAX;
    let mut best_res: Vec<i64> = Vec::new();
    let mut i: usize = 0;
    while i < cands.len()
        invariant
            i <= cands@.len(),
            pcm_bounded(samples@),
            bps <= 64,
            mpo < 16,
            order <= 32,
            bi as nat == best_cand(samples@, bps as nat, rs, mpo as nat, order as nat, cands@, i as nat).0,
            bt as nat == best_cand(samples@, bps as nat, rs, mpo as nat, order as nat, cands@, i as nat).1,
            bt < u64::MAX ==> bi < i && cand_usable(samples@, cands@[bi as int], order as nat)
                && best_res@ == lpc_residuals(
                samples@,
                cands@[bi as int].qlp_coeffs@,
                cands@[bi as int].qlp_shift,
                order as nat,
            ),
            bt < u64::MAX ==> bt <= 0xFFFF_FFFF_0001_0000,
        decreases cands@.len() - i,
    {
        let c = &cands[i];
        if order <= samples.len() && c.qlp_coeffs.len() == order && 0 <= c.qlp_shift
            && c.qlp_shift <= 15 && 1 <= c.qlp_precision && c.qlp_precision <= 15 && coeffs_within(
            &c.qlp_coeffs,
        ) {
            proof {
                lemma_lpc_ok(samples@, c.qlp_coeffs@, c.qlp_shift, order as nat);
            }
            let residuals = compute_lpc_residuals(samples, &c.qlp_coeffs, c.qlp_shift, order);
            proof {
                assert(residuals@.len() == samples@.len());
            }
            if all_within(&residuals) {
                let (_, res_bits) = find_best_partition_order(&residuals, order, mpo, rs, bps);
                assert(order * bps <= 2048 && order * c.qlp_precision <= 480) by (nonlinear_arith)
                    requires
                        order <= 32,
                        bps <= 64,
                        c.qlp_precision <= 15,
                ;
                let overhead = (order * bps) as u64 + 4 + 5 + (order * c.qlp_precision) as u64;
                let total_bits = overhead + res_bits;
                if total_bits < bt {
                    bt = total_bits;
                    bi = i;
                    best_res = residuals;
                }
            }
        }
        i = i + 1;
    }
    (bi, best_res, bt)
}

/// Picks how to predict `samples`: constant, verbatim, a fixed order up to 4 (only order 0
/// when `level` searches no LPC), or one of `lpc_candidates`, whose group `j` holds the
/// quantized coefficient sets of LPC order 2, 4, .., 16, 20, .., 32 (group by group) —
/// whichever is estimated smallest. Candidates a group's order cannot use are passed over.
pub fn search_predictor_with_lpc(
    samples: &[i64],
    bps: usize,
    level: CompressionLevel,
    lpc_candidates: &[Vec<LpcCandidate>],
) -> (r: PredictionMode)
    requires
        samples@.len() > 0,
        pcm_bounded(samples@),
        bps <= 64,
    ensures
        mode_is(r, search_pick(samples@, bps as nat, level, lpc_candidates@), samples@, lpc_candidates@),
{
    if is_constant_exec(samples) {
        return PredictionMode::Constant(samples[0]);
    }
    let rice_search = level.rice_search();
    let max_lpc_order = level.max_lpc_order();
    let max_part_order = level.max_partition_order();
    let nfix: usize = if max_lpc_order == 0 {
        1
    } else {
        5
    };
    let (fixed_mode, fixed_bits) = fixed_search(samples, bps, rice_search, max_part_order, nfix);
    let ghost s = samples@;
    let ghost cs = lpc_candidates@;
    let ghost rs = rice_search;
    let ghost mpo = max_part_order as nat;
    let ghost pk0 = fixed_stage(s, bps as nat, rs, mpo, nfix as nat).0;
    if max_lpc_order == 0 {
        return fixed_mode;
    }
    let mut best_mode = fixed_mode;
    let mut min_bits = fixed_bits;
    let mut prev_lpc_bits = u64::MAX;
    let mut stop = false;
    let mut j: usize = 0;
    while j < 12
        invariant
            j <= 12,
            s == samples@,
            cs == lpc_candidates@,
            pcm_bounded(s),
            bps <= 64,
            mpo == max_part_order,
            max_part_order < 16,
            max_lpc_order == max_lpc_spec(level),
            rs == rice_search,
            min_bits <= 0xFFFF_FFFF_0001_0000,
            ({
                let st = lpc_stage(s, bps as nat, rs, mpo, max_lpc_order as nat, cs, j as nat, pk0, fixed_stage(s, bps as nat, rs, mpo, 5).1);
                &&& mode_is(best_mode, st.0, s, cs)
                &&& min_bits == st.1
                &&& prev_lpc_bits == st.2
                &&& stop == st.3
            }),
        decreases 12 - j,
    {
        let order: usize = if j < 8 {
            2 * (j + 1)
        } else {
            16 + 4 * (j - 7)
        };
        if !stop {
            if order > max_lpc_order {
                stop = true;
            } else {
                let improvement = if min_bits > prev_lpc_bits {
                    min_bits - prev_lpc_bits
                } else {
                    0
                };
                if order > 10 && prev_lpc_bits != u64::MAX && improvement < prev_lpc_bits / 100 {
                    stop = true;
                } else if j < lpc_candidates.len() {
                    let (bi, residuals, bt) = best_candidate(
                        samples,
                        bps,
                        rice_search,
                        max_part_order,
                        order,
                        &lpc_candidates[j],
                    );
                    if bt < u64::MAX {
                        if bt < min_bits {
                            min_bits = bt;
                            let c = &lpc_candidates[j][bi];
                            best_mode = PredictionMode::Lpc {
                                order,
                                qlp_coeffs: c.qlp_coeffs.clone(),
                                qlp_shift: c.qlp_shift,
                                qlp_precision: c.qlp_precision,
                                residuals,
                            };
                        }
                        prev_lpc_bits = bt;
                    }
                } else {
                    proof {
                        assert(group(cs, j as nat).len() == 0);
                    }
                }
            }
        }
        j = j + 1;
    }
    best_mode
}

/// `search_predictor_with_lpc` with no LPC candidates: constant, verbatim or a fixed order.
pub fn search_predictor(samples: &[i64], bps: usize, level: CompressionLevel) -> (r: PredictionMode)
    requires
        samples@.len() > 0,
        pcm_bounded(samples@),
        bps <= 64,
    ensures
        mode_is(r, search_pick(samples@, bps as nat, level, seq![]), samples@, seq![]),
{
    let none: Vec<Vec<LpcCandidate>> = Vec::new();
    proof {
        assert(none@ =~= seq![]);
    }
    search_predictor_with_lpc(samples, bps, level, none.as_slice())
}


/// `mode` can be undone over `n` samples without overflow or a short read.
pub open spec fn mode_recon_ok(mode: PredictionMode, n: nat) -> bool {
    match mode {
        PredictionMode::Constant(_) => true,
        PredictionMode::Verbatim(v) => v@.len() == n,
        PredictionMode::Fixed { order, residuals } => order <= 4 && order <= residuals@.len() <= n
            && fixed_recon_ok(residuals@, order as nat),
        PredictionMode::Lpc { order, qlp_coeffs, qlp_shift, residuals, .. } => order
            <= residuals@.len() <= n && order <= qlp_coeffs@.len() && -64 < qlp_shift < 64
            && lpc_recon_ok(residuals@, qlp_coeffs@, qlp_shift, order as nat),
    }
}

/// The samples `mode` rebuilds over `old`: all of them for a constant or verbatim block,
/// the first `residuals.len()` for a predicted one (the rest stay as they were).
pub open spec fn mode_recon(mode: PredictionMode, old: Seq<i64>) -> Seq<i64> {
    match mode {
        PredictionMode::Constant(v) => Seq::new(old.len(), |i: int| v),
        PredictionMode::Verbatim(v) => v@,
        PredictionMode::Fixed { order, residuals } => fixed_recon(
            residuals@,
            order as nat,
            residuals@.len(),
        ) + old.skip(residuals@.len() as int),
        PredictionMode::Lpc { order, qlp_coeffs, qlp_shift, residuals, .. } => lpc_recon(
            residuals@,
            qlp_coeffs@,
            qlp_shift,
            order as nat,
            residuals@.len(),
        ) + old.skip(residuals@.len() as int),
    }
}

/// Undoes `mode` into `samples`.
pub fn reconstruct_prediction(mode: &PredictionMode, samples: &mut [i64])
    requires
        mode_recon_ok(*mode, old(samples)@.len()),
    ensures
        final(samples)@ == mode_recon(*mode, old(samples)@),
{
    match mode {
        PredictionMode::Constant(val) => {
            let mut i: usize = 0;
            while i < samples.len()
                invariant
                    i <= samples@.len(),
                    samples@.len() == old(samples)@.len(),
                    forall|j: int| 0 <= j < i ==> #[trigger] samples@[j] == *val,
                decreases samples@.len() - i,
            {
                samples[i] = *val;
                i = i + 1;
            }
            proof {
                assert(samples@ =~= mode_recon(*mode, old(samples)@));
            }
        },
        PredictionMode::Verbatim(raw_samples) => {
            let mut i: usize = 0;
            while i < samples.len()
                invariant
                    i <= samples@.len(),
                    samples@.len() == old(samples)@.len(),
                    raw_samples@.len() == samples@.len(),
                    forall|j: int| 0 <= j < i ==> #[trigger] samples@[j] == raw_samples@[j],
                decreases samples@.len() - i,
            {
                samples[i] = raw_samples[i];
                i = i + 1;
            }
            proof {
                assert(samples@ =~= mode_recon(*mode, old(samples)@));
            }
        },
        PredictionMode::Fixed { order, residuals } => {
            reconstruct_fixed(residuals, samples, *order);
            proof {
                lemma_fixed_recon_len(residuals@, *order as nat, residuals@.len());
                assert(samples@ =~= samples@.take(residuals@.len() as int) + samples@.skip(
                    residuals@.len() as int,
                ));
            }
        },
        PredictionMode::Lpc { order, qlp_coeffs, qlp_shift, residuals, .. } => {
            reconstruct_lpc(residuals, qlp_coeffs, *qlp_shift, *order, samples);
            proof {
                lemma_lpc_recon_len(residuals@, qlp_coeffs@, *qlp_shift, *order as nat, residuals@.len());
                assert(samples@ =~= samples@.take(residuals@.len() as int) + samples@.skip(
                    residuals@.len() as int,
                ));
            }
        },
    }
}

proof fn lemma_fixed_stage_pick(s: Seq<i64>, bps: nat, rs: RiceSearch, mpo: nat, m: nat)
    requires
        m <= 5,
    ensures
        fixed_stage(s, bps, rs, mpo, m).0 is Verbatim || (fixed_stage(s, bps, rs, mpo, m).0 matches SearchPick::Fixed(o) && o <= 4 && o <= s.len()),
    decreases m,
{
    if m > 0 {
        lemma_fixed_stage_pick(s, bps, rs, mpo, (m - 1) as nat);
    }
}

proof fn lemma_best_cand_pick(
    s: Seq<i64>,
    bps: nat,
    rs: RiceSearch,
    mpo: nat,
    order: nat,
    cs: Seq<LpcCandidate>,
    m: nat,
)
    requires
        m <= cs.len(),
    ensures
        best_cand(s, bps, rs, mpo, order, cs, m).1 < u64::MAX ==> best_cand(s, bps, rs, mpo, order, cs, m).0 < m
            && cand_usable(s, cs[best_cand(s, bps, rs, mpo, order, cs, m).0 as int], order),
    decreases m,
{
    if m > 0 {
        lemma_best_cand_pick(s, bps, rs, mpo, order, cs, (m - 1) as nat);
    }
}

proof fn lemma_lpc_stage_pick(
    s: Seq<i64>,
    bps: nat,
    rs: RiceSearch,
    mpo: nat,
    maxlpc: nat,
    cands: Seq<Vec<LpcCandidate>>,
    m: nat,
    pk0: SearchPick,
    mb0: nat,
)
    requires
        m <= 12,
    ensures
        ({
            let pk = lpc_stage(s, bps, rs, mpo, maxlpc, cands, m, pk0, mb0).0;
            pk == pk0 || (pk matches SearchPick::Lpc(j, i) && j < m && i < group(cands, j).len()
                && cand_usable(s, group(cands, j)[i as int], lpc_order_spec(j)))
        }),
    decreases m,
{
    if m > 0 {
        lemma_lpc_stage_pick(s, bps, rs, mpo, maxlpc, cands, (m - 1) as nat, pk0, mb0);
        let j = (m - 1) as nat;
        let g = group(cands, j);
        lemma_best_cand_pick(s, bps, rs, mpo, lpc_order_spec(j), g, g.len());
    }
}

/// Undoing the prediction the search picks gives the samples back: whatever the level and
/// the LPC candidates, for every block the search takes.
pub proof fn lemma_search_roundtrip(
    s: Seq<i64>,
    bps: nat,
    level: CompressionLevel,
    cands: Seq<Vec<LpcCandidate>>,
    m: PredictionMode,
    old: Seq<i64>,
)
    requires
        s.len() > 0,
        pcm_bounded(s),
        old.len() == s.len(),
        mode_is(m, search_pick(s, bps, level, cands), s, cands),
    ensures
        mode_recon_ok(m, s.len()),
        mode_recon(m, old) == s,
{
    let rs = rice_search_spec(level);
    let mpo = max_porder_spec(level);
    let pk = search_pick(s, bps, level, cands);
    lemma_fixed_stage_pick(s, bps, rs, mpo, 1);
    lemma_fixed_stage_pick(s, bps, rs, mpo, 5);
    let (pk5, mb5) = fixed_stage(s, bps, rs, mpo, 5);
    lemma_lpc_stage_pick(s, bps, rs, mpo, max_lpc_spec(level), cands, 12, pk5, mb5);
    match pk {
        SearchPick::Constant => {
            assert(mode_recon(m, old) =~= s);
        },
        SearchPick::Verbatim => {},
        SearchPick::Fixed(o) => {
            lemma_fixed_bounded(s, o);
            lemma_fixed_roundtrip(s, o);
            assert(s.skip(s.len() as int) =~= Seq::<i64>::empty());
            assert(old.skip(s.len() as int) =~= Seq::<i64>::empty());
            assert(mode_recon(m, old) =~= s);
        },
        SearchPick::Lpc(j, i) => {
            let c = group(cands, j)[i as int];
            let order = lpc_order_spec(j);
            assert(order <= 32);
            lemma_lpc_ok(s, c.qlp_coeffs@, c.qlp_shift, order);
            lemma_lpc_roundtrip(s, c.qlp_coeffs@, c.qlp_shift, order);
            assert(old.skip(s.len() as int) =~= Seq::<i64>::empty());
            assert(mode_recon(m, old) =~= s);
        },
    }
}


/// A prediction of an `n`-sample block in the shape the frame writers take: the right
/// lengths, orders and fields, and residuals within the estimate's range.
pub open spec fn mode_shape_ok(m: ModeSpec, n: nat) -> bool {
    match m {
        ModeSpec::Constant(_) => true,
        ModeSpec::Verbatim(v) => v.len() == n,
        ModeSpec::Fixed(o, r) => o <= 4 && o <= n && r.len() == n && res_bounded(r),
        ModeSpec::Lpc(o, c, sh, p, r) => 2 <= o <= 32 && o <= n && c.len() == o && 0 <= sh <= 15
            && 1 <= p <= 15 && r.len() == n && res_bounded(r) && forall|j: int|
            0 <= j < o ==> -0x4000 <= #[trigger] c[j] <= 0x4000,
    }
}

/// Residuals within the estimate's range have every partition's Rice costs in a `u64`.
pub proof fn lemma_bounded_stream_fits(r: Seq<i64>, warmup: nat, porder: nat)
    requires
        res_bounded(r),
    ensures
        rice_stream_fits(r, warmup, porder),
{
    assert forall|p: nat|
        p < pow2(porder) && #[trigger] part_begin(r.len(), porder, warmup, p) < part_end(
            r.len(),
            porder,
            p,
        ) implies rice_costs_fit(
        fold_seq(
            r.subrange(
                part_begin(r.len(), porder, warmup, p) as int,
                part_end(r.len(), porder, p) as int,
            ),
        ),
    ) by {
        let b = part_begin(r.len(), porder, warmup, p);
        let e = part_end(r.len(), porder, p);
        vstd::arithmetic::power2::lemma_pow2_pos(porder);
        if p + 1 != pow2(porder) {
            lemma_part_bounds(r.len(), pow2(porder), p);
        }
        let sub = r.subrange(b as int, e as int);
        assert forall|i: int| 0 <= i < sub.len() implies -0x10_0000_0000 <= #[trigger] sub[i]
            <= 0x10_0000_0000 by {
            assert(sub[i] == r[b + i]);
        }
        lemma_bounded_fits(sub);
    }
}

/// The prediction the search picks has the shape the frame writers take.
pub proof fn lemma_search_shape(
    s: Seq<i64>,
    bps: nat,
    level: CompressionLevel,
    cands: Seq<Vec<LpcCandidate>>,
    m: PredictionMode,
)
    requires
        s.len() > 0,
        pcm_bounded(s),
        mode_is(m, search_pick(s, bps, level, cands), s, cands),
    ensures
        mode_shape_ok(m@, s.len()),
{
    let rs = rice_search_spec(level);
    let mpo = max_porder_spec(level);
    let pk = search_pick(s, bps, level, cands);
    lemma_fixed_stage_pick(s, bps, rs, mpo, 1);
    lemma_fixed_stage_pick(s, bps, rs, mpo, 5);
    let (pk5, mb5) = fixed_stage(s, bps, rs, mpo, 5);
    lemma_lpc_stage_pick(s, bps, rs, mpo, max_lpc_spec(level), cands, 12, pk5, mb5);
    match pk {
        SearchPick::Fixed(o) => {
            lemma_fixed_bounded(s, o);
        },
        SearchPick::Lpc(j, i) => {
            let c = group(cands, j)[i as int];
            let order = lpc_order_spec(j);
            assert(2 <= order <= 32);
        },
        _ => {},
    }
}

} // verus!
