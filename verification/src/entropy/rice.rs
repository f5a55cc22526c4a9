use crate::bitstream::{
    bits_of, bits_val, lemma_bits_of_len, lemma_bits_of_val, lemma_bits_val_of, lemma_mask_bits,
    lemma_window_split, lemma_zero_run_unary, unary_bits, zero_run, BitReader, BitWriter,
};
use crate::error::LoomError;
use vstd::arithmetic::power2::{lemma2_to64, lemma_pow2_pos, lemma_pow2_unfold, pow2};
use vstd::prelude::*;

verus! {

/// The zigzag map that folds signed residuals onto the naturals: 0, -1, 1, -2, ...
pub open spec fn fold_spec(v: int) -> int {
    if v >= 0 {
        2 * v
    } else {
        -2 * v - 1
    }
}

/// The inverse of `fold_spec`.
pub open spec fn unfold_spec(u: int) -> int {
    if u % 2 == 0 {
        u / 2
    } else {
        -(u / 2) - 1
    }
}

pub fn fold(val: i64) -> (r: u64)
    ensures
        r == fold_spec(val as int),
{
    if val >= 0 {
        proof {
            assert(val >= 0 ==> ((val as u64) << 1u64) == 2 * (val as u64)) by (bit_vector);
        }
        (val as u64) << 1
    } else {
        proof {
            assert(val < 0 ==> !val == -val - 1) by (bit_vector);
            let m = (!val) as u64;
            assert(m < 0x8000_0000_0000_0000 ==> (m << 1u64) | 1u64 == 2 * m + 1) by (bit_vector);
        }
        ((!val) as u64) << 1 | 1
    }
}

pub fn unfold(val: u64) -> (r: i64)
    ensures
        r == unfold_spec(val as int),
{
    proof {
        assert((val & 1u64) == val % 2) by (bit_vector);
        assert(val >> 1u64 == val / 2) by (bit_vector);
        let h = val >> 1u64;
        assert(h < 0x8000_0000_0000_0000 ==> (!h) as i64 == -(h as int) - 1) by (bit_vector);
    }
    if (val & 1) == 0 {
        (val >> 1) as i64
    } else {
        !(val >> 1) as i64
    }
}


/// Bits in a Rice code of `v` with parameter `k`: a unary quotient and `k` remainder bits.
pub open spec fn rice_cost(v: u64, k: nat) -> nat {
    (v as nat / pow2(k) + 1 + k) as nat
}

/// Bits in the Rice codes of all of `f` with parameter `k`.
pub open spec fn rice_total(f: Seq<u64>, k: nat) -> nat
    decreases f.len(),
{
    if f.len() == 0 {
        0
    } else {
        rice_total(f.drop_last(), k) + rice_cost(f.last(), k)
    }
}

/// The first parameter below `m` with the fewest Rice bits for `f`, and that count
/// (`u64::MAX` when `m` is 0).
pub open spec fn best_rice_upto(f: Seq<u64>, m: nat) -> (nat, nat)
    decreases m,
{
    if m == 0 {
        (0, u64::MAX as nat)
    } else {
        let (k, b) = best_rice_upto(f, (m - 1) as nat);
        let t = rice_total(f, (m - 1) as nat);
        if t < b {
            ((m - 1) as nat, t)
        } else {
            (k, b)
        }
    }
}

/// Bits needed for `m` in binary.
pub open spec fn bit_len(m: nat) -> nat
    decreases m,
{
    if m == 0 {
        0
    } else {
        1 + bit_len(m / 2)
    }
}

/// Bits needed for `v` in two's complement.
pub open spec fn min_bits_spec(v: int) -> nat {
    if v >= 0 {
        bit_len(v as nat) + 1
    } else {
        bit_len((-v - 1) as nat) + 1
    }
}

/// The most two's complement bits any value of `s` needs (0 for no values).
pub open spec fn max_min_bits(s: Seq<i64>) -> nat
    decreases s.len(),
{
    if s.len() == 0 {
        0
    } else {
        let m = max_min_bits(s.drop_last());
        let r = min_bits_spec(s.last() as int);
        if r > m {
            r
        } else {
            m
        }
    }
}

/// The bit width of an escaped partition: the widest value, between 1 and 31.
pub open spec fn escape_bps_spec(s: Seq<i64>) -> nat {
    let m = max_min_bits(s);
    if m > 31 {
        31
    } else if m == 0 {
        1
    } else {
        m
    }
}

/// The Rice parameter, bit count and escape width `find_best_k` settles on: the cheapest
/// parameter below 15, unless writing every value raw at the escape width is cheaper, which
/// parameter 15 stands for.
pub open spec fn find_best_k_spec(f: Seq<u64>, s: Seq<i64>) -> (u32, u64, usize) {
    if f.len() == 0 {
        (0, 0, 0)
    } else {
        let (bk, mb) = best_rice_upto(f, 15);
        let e = escape_bps_spec(s);
        let eb = f.len() * e + 5;
        if eb < mb {
            (15, eb as u64, e as usize)
        } else {
            (bk as u32, mb as u64, e as usize)
        }
    }
}

/// The Rice code totals of `f` all fit in a `u64`, as does the cost of escaping it.
pub open spec fn rice_costs_fit(f: Seq<u64>) -> bool {
    &&& forall|k: nat| k < 15 ==> #[trigger] rice_total(f, k) <= u64::MAX
    &&& f.len() * 31 + 5 <= u64::MAX
}

pub proof fn lemma_best_rice_lt(f: Seq<u64>, m: nat)
    ensures
        best_rice_upto(f, m).0 < m || m == 0,
    decreases m,
{
    if m > 0 {
        lemma_best_rice_lt(f, (m - 1) as nat);
        let (k, b) = best_rice_upto(f, (m - 1) as nat);
        if m == 1 {
            assert(best_rice_upto(f, 0).0 == 0);
        }
        assert(k < m);
    }
}

pub proof fn lemma_rice_total_prefix(f: Seq<u64>, i: int, k: nat)
    requires
        0 <= i <= f.len(),
    ensures
        rice_total(f.take(i), k) <= rice_total(f, k),
    decreases f.len(),
{
    if i < f.len() {
        assert(f.drop_last().take(i) =~= f.take(i));
        lemma_rice_total_prefix(f.drop_last(), i, k);
    } else {
        assert(f.take(i) =~= f);
    }
}

pub proof fn lemma_bit_len_leading_zeros(i: u64)
    ensures
        vstd::std_specs::bits::u64_leading_zeros(i) == 64 - bit_len(i as nat),
        bit_len(i as nat) <= 64,
    decreases i,
{
    reveal(vstd::std_specs::bits::u64_leading_zeros);
    if i > 0 {
        lemma_bit_len_leading_zeros(i / 2);
    }
}

/// `rice_bits(val, k)`: how many bits the Rice code of `val` with parameter `k` takes.
pub fn rice_bits(val: u64, k: u32) -> (r: u64)
    requires
        k < 64,
        rice_cost(val, k as nat) <= u64::MAX,
    ensures
        r == rice_cost(val, k as nat),
{
    let q = val >> k;
    proof {
        vstd::bits::lemma_u64_shr_is_div(val, k as u64);
    }
    let unary_len = q + 1;
    let binary_len = k as u64;
    unary_len + binary_len
}

/// How many bits `val` needs in two's complement.
pub fn min_bits_2s_complement(val: i64) -> (r: usize)
    ensures
        r == min_bits_spec(val as int),
        1 <= r <= 64,
{
    if val >= 0 {
        let m = val as u64;
        proof {
            lemma_bit_len_leading_zeros(m);
            assert(m < 0x8000_0000_0000_0000);
            assert(bit_len(m as nat) <= 63) by {
                vstd::arithmetic::power2::lemma2_to64_rest();
                lemma_bit_len_bound(m as nat, 63);
            }
        }
        64 - m.leading_zeros() as usize + 1
    } else {
        proof {
            assert(val < 0 ==> !val == -val - 1) by (bit_vector);
        }
        let m = (!val) as u64;
        proof {
            assert(m < 0x8000_0000_0000_0000);
            lemma_bit_len_leading_zeros(m);
            assert(bit_len(m as nat) <= 63) by {
                vstd::arithmetic::power2::lemma2_to64_rest();
                lemma_bit_len_bound(m as nat, 63);
            }
        }
        64 - m.leading_zeros() as usize + 1
    }
}

/// A number below `2^b` needs at most `b` bits, and conversely.
pub proof fn lemma_bit_len_bound(m: nat, b: nat)
    ensures
        m < pow2(b) <==> bit_len(m) <= b,
    decreases b,
{
    lemma_pow2_pos(b);
    if b == 0 {
        lemma2_to64();
    } else {
        lemma_pow2_unfold(b);
        if m > 0 {
            lemma_bit_len_bound(m / 2, (b - 1) as nat);
        }
    }
}

/// The cheapest Rice parameter below 15 for `folded`, first on ties, and its bit count.
fn best_rice_param(folded: &[u64]) -> (r: (u32, u64))
    requires
        rice_costs_fit(folded@),
    ensures
        r.0 as nat == best_rice_upto(folded@, 15).0,
        r.1 as nat == best_rice_upto(folded@, 15).1,
        r.0 < 15,
{
    let mut best_k: u32 = 0;
    let mut min_bits = u64::MAX;
    let mut k: u32 = 0;
    while k < 15
        invariant
            k <= 15,
            rice_costs_fit(folded@),
            best_k as nat == best_rice_upto(folded@, k as nat).0,
            min_bits as nat == best_rice_upto(folded@, k as nat).1,
            best_k < 15,
        decreases 15 - k,
    {
        let mut bits = 0u64;
        let mut i: usize = 0;
        proof {
            lemma2_to64();
            assert(folded@.take(0) =~= Seq::<u64>::empty());
        }
        while i < folded.len()
            invariant
                i <= folded.len(),
                k < 15,
                rice_costs_fit(folded@),
                bits as nat == rice_total(folded@.take(i as int), k as nat),
            decreases folded.len() - i,
        {
            proof {
                assert(folded@.take(i + 1).drop_last() =~= folded@.take(i as int));
                lemma_rice_total_prefix(folded@, i + 1, k as nat);
                assert(rice_total(folded@, k as nat) <= u64::MAX);
            }
            bits = bits + rice_bits(folded[i], k);
            i = i + 1;
        }
        proof {
            assert(folded@.take(folded.len() as int) =~= folded@);
        }
        if bits < min_bits {
            min_bits = bits;
            best_k = k;
        }
        k = k + 1;
    }
    (best_k, min_bits)
}

/// Picks the Rice parameter for a partition, or 15 for raw values when that is cheaper;
/// returns the parameter, the bit count and the raw width.
pub fn find_best_k(folded_samples: &[u64], slice: &[i64]) -> (r: (u32, u64, usize))
    requires
        rice_costs_fit(folded_samples@),
    ensures
        r == find_best_k_spec(folded_samples@, slice@),
{
    if folded_samples.len() == 0 {
        return (0, 0, 0);
    }
    let (best_k, min_bits) = best_rice_param(folded_samples);
    let mut max_escape_bps: usize = 0;
    let mut i: usize = 0;
    proof {
        assert(slice@.take(0) =~= Seq::<i64>::empty());
    }
    while i < slice.len()
        invariant
            i <= slice.len(),
            max_escape_bps == max_min_bits(slice@.take(i as int)),
            max_escape_bps <= 64,
        decreases slice.len() - i,
    {
        proof {
            assert(slice@.take(i + 1).drop_last() =~= slice@.take(i as int));
        }
        let req = min_bits_2s_complement(slice[i]);
        if req > max_escape_bps {
            max_escape_bps = req;
        }
        i = i + 1;
    }
    proof {
        assert(slice@.take(slice.len() as int) =~= slice@);
    }
    if max_escape_bps > 31 {
        max_escape_bps = 31;
    }
    if max_escape_bps == 0 {
        max_escape_bps = 1;
    }
    proof {
        let l = folded_samples@.len();
        assert(l * max_escape_bps + 5 <= l * 31 + 5) by (nonlinear_arith)
            requires
                max_escape_bps <= 31,
        ;
    }
    let escape_bits = (folded_samples.len() as u64) * (max_escape_bps as u64) + 5;
    if escape_bits < min_bits {
        return (15, escape_bits, max_escape_bps);
    }
    (best_k, min_bits, max_escape_bps)
}

/// Same as `find_best_k`.
pub fn find_best_k_exhaustive(folded_samples: &[u64], slice: &[i64]) -> (r: (u32, u64, usize))
    requires
        rice_costs_fit(folded_samples@),
    ensures
        r == find_best_k_spec(folded_samples@, slice@),
{
    find_best_k(folded_samples, slice)
}


/// The zigzag folds of a run of residuals.
pub open spec fn fold_seq(s: Seq<i64>) -> Seq<u64> {
    Seq::new(s.len(), |i: int| fold_spec(s[i] as int) as u64)
}

/// First sample of partition `p` that is coded (partition 0 skips the warm-up samples).
pub open spec fn part_begin(total: nat, porder: nat, warmup: nat, p: nat) -> nat {
    if p == 0 {
        warmup
    } else {
        p * (total / pow2(porder))
    }
}

/// One past the last sample of partition `p`; the last partition takes the remainder.
pub open spec fn part_end(total: nat, porder: nat, p: nat) -> nat {
    if p + 1 == pow2(porder) {
        total
    } else {
        (p + 1) * (total / pow2(porder))
    }
}

/// The Rice code of `v` with parameter `k`.
pub open spec fn rice_code(v: u64, k: nat) -> Seq<bool> {
    unary_bits(v as nat / pow2(k)) + bits_of(v as nat, k)
}

/// The Rice codes of a run of folded values.
pub open spec fn rice_codes(f: Seq<u64>, k: nat) -> Seq<bool>
    decreases f.len(),
{
    if f.len() == 0 {
        Seq::empty()
    } else {
        rice_codes(f.drop_last(), k) + rice_code(f.last(), k)
    }
}

/// A run of values written raw, `bps` two's complement bits apiece.
pub open spec fn raw_codes(s: Seq<i64>, bps: nat) -> Seq<bool>
    decreases s.len(),
{
    if s.len() == 0 {
        Seq::empty()
    } else {
        raw_codes(s.drop_last(), bps) + bits_of(s.last() as u64 as nat, bps)
    }
}

/// The parameter and raw width a partition is coded with.
pub open spec fn part_param(s: Seq<i64>, allow_escape: bool) -> (nat, nat) {
    if allow_escape {
        let t = find_best_k_spec(fold_seq(s), s);
        (t.0 as nat, t.2 as nat)
    } else {
        (best_rice_upto(fold_seq(s), 15).0, 0)
    }
}

/// The bits of the partition holding samples `b .. e`: a 4-bit parameter, then either a
/// 5-bit width and raw values (parameter 15) or Rice codes.
pub open spec fn part_bits(res: Seq<i64>, b: nat, e: nat, allow_escape: bool) -> Seq<bool> {
    if b >= e {
        bits_of(0, 4)
    } else {
        let s = res.subrange(b as int, e as int);
        let (k, bps) = part_param(s, allow_escape);
        bits_of(k, 4) + (if k == 15 {
            bits_of(bps, 5) + raw_codes(s, bps)
        } else {
            rice_codes(fold_seq(s), k)
        })
    }
}

/// The bits of the first `m` partitions.
pub open spec fn parts_upto(
    res: Seq<i64>,
    warmup: nat,
    porder: nat,
    allow_escape: bool,
    m: nat,
) -> Seq<bool>
    decreases m,
{
    if m == 0 {
        Seq::empty()
    } else {
        parts_upto(res, warmup, porder, allow_escape, (m - 1) as nat) + part_bits(
            res,
            part_begin(res.len(), porder, warmup, (m - 1) as nat),
            part_end(res.len(), porder, (m - 1) as nat),
            allow_escape,
        )
    }
}

/// The partitioned Rice coding of `res`: a 2-bit method (0), a 4-bit partition order, and
/// `2^porder` partitions.
pub open spec fn rice_stream(res: Seq<i64>, warmup: nat, porder: nat, allow_escape: bool) -> Seq<
    bool,
> {
    bits_of(0, 2) + bits_of(porder, 4) + parts_upto(res, warmup, porder, allow_escape, pow2(porder))
}

/// Every coded partition's bit counts fit in a `u64`.
pub open spec fn rice_stream_fits(res: Seq<i64>, warmup: nat, porder: nat) -> bool {
    forall|p: nat|
        p < pow2(porder) && #[trigger] part_begin(res.len(), porder, warmup, p) < part_end(
            res.len(),
            porder,
            p,
        ) ==> rice_costs_fit(
            fold_seq(
                res.subrange(
                    part_begin(res.len(), porder, warmup, p) as int,
                    part_end(res.len(), porder, p) as int,
                ),
            ),
        )
}

pub proof fn lemma_part_bounds(total: nat, np: nat, p: nat)
    requires
        p < np,
    ensures
        p * (total / np) + (total / np) <= total,
        (p + 1) * (total / np) == p * (total / np) + total / np,
        p * (total / np) <= total,
{
    let ps = total / np;
    vstd::arithmetic::div_mod::lemma_fundamental_div_mod(total as int, np as int);
    assert((p + 1) * ps <= np * ps) by (nonlinear_arith)
        requires
            p + 1 <= np,
    ;
    assert(np * ps <= total) by (nonlinear_arith)
        requires
            total == np * ps + total % np,
            total % np >= 0,
    ;
    assert((p + 1) * ps == p * ps + ps) by (nonlinear_arith);
}

/// Writes `residuals` (from `warmup_len` on) as partitioned Rice codes with
/// `2^partition_order` partitions.
pub fn encode_residuals(
    writer: &mut BitWriter,
    residuals: &[i64],
    warmup_len: usize,
    partition_order: u32,
    allow_escape: bool,
)
    requires
        old(writer).wf(),
        partition_order < 16,
        rice_stream_fits(residuals@, warmup_len as nat, partition_order as nat),
    ensures
        final(writer).wf(),
        final(writer).bits() == old(writer).bits() + rice_stream(
            residuals@,
            warmup_len as nat,
            partition_order as nat,
            allow_escape,
        ),
{
    proof {
        vstd::bits::lemma_u64_pow2_no_overflow(partition_order as nat);
        lemma2_to64();
        vstd::arithmetic::power2::lemma_pow2_strictly_increases(partition_order as nat, 16);
    }
    let num_partitions: usize = 1 << partition_order;
    proof {
        assert(1usize << (partition_order as usize) == pow2(partition_order as nat)) by {
            vstd::bits::lemma_usize_shl_is_mul(1, partition_order as usize);
        }
    }
    let total_len = residuals.len();
    let ghost res = residuals@;
    let ghost po = partition_order as nat;
    let ghost w0 = writer.bits();
    writer.write_bits(0, 2);
    writer.write_bits(partition_order as u64, 4);
    let partition_samples = total_len / num_partitions;
    let mut p: usize = 0;
    proof {
        assert(writer.bits() =~= w0 + bits_of(0, 2) + bits_of(po, 4) + parts_upto(
            res,
            warmup_len as nat,
            po,
            allow_escape,
            0,
        ));
    }
    while p < num_partitions
        invariant
            p <= num_partitions,
            num_partitions == pow2(po),
            po == partition_order,
            partition_order < 16,
            res == residuals@,
            total_len == res.len(),
            partition_samples == total_len / num_partitions,
            writer.wf(),
            rice_stream_fits(res, warmup_len as nat, po),
            writer.bits() == w0 + bits_of(0, 2) + bits_of(po, 4) + parts_upto(
                res,
                warmup_len as nat,
                po,
                allow_escape,
                p as nat,
            ),
        decreases num_partitions - p,
    {
        proof {
            lemma_part_bounds(total_len as nat, num_partitions as nat, p as nat);
        }
        let start = p * partition_samples;
        let mut end = start + partition_samples;
        if p == num_partitions - 1 {
            end = total_len;
        }
        let p_start = if p == 0 {
            if start > warmup_len {
                start
            } else {
                warmup_len
            }
        } else {
            start
        };
        let ghost b = part_begin(total_len as nat, po, warmup_len as nat, p as nat);
        let ghost e = part_end(total_len as nat, po, p as nat);
        proof {
            assert(p_start == b);
            assert(end == e);
        }
        let ghost before = writer.bits();
        encode_partition(writer, residuals, p_start, end, allow_escape);
        proof {
            assert(writer.bits() =~= w0 + bits_of(0, 2) + bits_of(po, 4) + parts_upto(
                res,
                warmup_len as nat,
                po,
                allow_escape,
                (p + 1) as nat,
            ));
        }
        p = p + 1;
    }
    proof {
        assert(writer.bits() =~= w0 + rice_stream(res, warmup_len as nat, po, allow_escape));
    }
}

/// Writes the partition holding `residuals[p_start..end]`.
fn encode_partition(
    writer: &mut BitWriter,
    residuals: &[i64],
    p_start: usize,
    end: usize,
    allow_escape: bool,
)
    requires
        old(writer).wf(),
        end <= residuals@.len(),
        p_start < end ==> rice_costs_fit(
            fold_seq(residuals@.subrange(p_start as int, end as int)),
        ),
    ensures
        final(writer).wf(),
        final(writer).bits() == old(writer).bits() + part_bits(
            residuals@,
            p_start as nat,
            end as nat,
            allow_escape,
        ),
{
    if p_start >= end {
        writer.write_bits(0, 4);
        return ;
    }
    let slice = &residuals[p_start..end];
    let mut folded: Vec<u64> = Vec::new();
    let mut i: usize = 0;
    while i < slice.len()
        invariant
            i <= slice@.len(),
            folded@ =~= fold_seq(slice@).take(i as int),
        decreases slice@.len() - i,
    {
        folded.push(fold(slice[i]));
        i = i + 1;
    }
    proof {
        assert(folded@ =~= fold_seq(slice@));
    }
    let (k, escape_bps) = if allow_escape {
        let (k, _, bps) = find_best_k(&folded, slice);
        (k, bps)
    } else {
        let (k, _) = best_rice_param(&folded);
        (k, 0)
    };
    proof {
        lemma2_to64();
        let t = find_best_k_spec(folded@, slice@);
        if allow_escape {
            assert(t.2 <= 31);
        }
    }
    writer.write_bits(k as u64, 4);
    let ghost mid = writer.bits();
    if k == 15 {
        writer.write_bits(escape_bps as u64, 5);
        let ghost mid2 = writer.bits();
        let mut j: usize = 0;
        proof {
            assert(slice@.take(0) =~= Seq::<i64>::empty());
            assert(mid2 + raw_codes(Seq::<i64>::empty(), escape_bps as nat) =~= mid2);
        }
        while j < slice.len()
            invariant
                j <= slice@.len(),
                escape_bps <= 31,
                writer.wf(),
                writer.bits() == mid2 + raw_codes(slice@.take(j as int), escape_bps as nat),
            decreases slice@.len() - j,
        {
            let val = slice[j];
            proof {
                lemma_mask_bits(val as u64, escape_bps as u64);
            }
            let mask = if escape_bps == 64 {
                u64::MAX
            } else {
                (1u64 << (escape_bps as u64)) - 1
            };
            proof {
                lemma_mask_bits(val as u64, escape_bps as u64);
                assert(slice@.take(j + 1).drop_last() =~= slice@.take(j as int));
            }
            writer.write_bits((val as u64) & mask, escape_bps);
            proof {
                assert(writer.bits() =~= mid2 + raw_codes(slice@.take(j + 1), escape_bps as nat));
            }
            j = j + 1;
        }
        proof {
            assert(slice@.take(slice@.len() as int) =~= slice@);
            assert(writer.bits() =~= old(writer).bits() + part_bits(
                residuals@,
                p_start as nat,
                end as nat,
                allow_escape,
            ));
        }
    } else {
        let mut j: usize = 0;
        proof {
            lemma_best_rice_lt(folded@, 15);
            assert(folded@.take(0) =~= Seq::<u64>::empty());
            assert(mid + rice_codes(Seq::<u64>::empty(), k as nat) =~= mid);
        }
        while j < folded.len()
            invariant
                j <= folded@.len(),
                k < 15,
                writer.wf(),
                writer.bits() == mid + rice_codes(folded@.take(j as int), k as nat),
            decreases folded@.len() - j,
        {
            let val = folded[j];
            proof {
                lemma_mask_bits(val, k as u64);
            }
            let q = val >> k;
            let r = val & ((1u64 << (k as u64)) - 1);
            proof {
                lemma_mask_bits(val, k as u64);
                vstd::bits::lemma_u64_shr_is_div(val, k as u64);
                assert(folded@.take(j + 1).drop_last() =~= folded@.take(j as int));
            }
            writer.write_unary(q);
            writer.write_bits(r, k as usize);
            proof {
                assert(writer.bits() =~= mid + rice_codes(folded@.take(j + 1), k as nat));
            }
            j = j + 1;
        }
        proof {
            assert(folded@.take(folded@.len() as int) =~= folded@);
            assert(writer.bits() =~= old(writer).bits() + part_bits(
                residuals@,
                p_start as nat,
                end as nat,
                allow_escape,
            ));
        }
    }
}


/// `u` read as a `b`-bit two's complement number, as the decoder computes it.
pub open spec fn sign_extend(u: u64, b: u64) -> i64 {
    let sign_bit = 1u64 << ((b - 1) as u64);
    let mask = ((1u64 << b) - 1) as u64;
    if (u & sign_bit) != 0 {
        (u | !mask) as i64
    } else {
        u as i64
    }
}

/// The number spelled by the `n` bits at `pos`.
pub open spec fn read_val(bits: Seq<bool>, pos: int, n: nat) -> nat {
    bits_val(bits.subrange(pos, pos + n))
}

/// A unary quotient `q` and remainder `r` joined as the decoder does: `(q << k) | r`.
pub open spec fn rice_join(q: nat, k: nat, r: nat) -> u64 {
    ((q as u64) << (k as u64)) | (r as u64)
}

/// Decoding raw values for samples `i .. e` at `pos`.
pub open spec fn dec_raw(
    bits: Seq<bool>,
    pos: int,
    out: Seq<i64>,
    i: int,
    e: int,
    bps: nat,
) -> Result<(Seq<i64>, int), LoomError>
    decreases e - i,
{
    if i >= e {
        Ok((out, pos))
    } else if pos + bps > bits.len() {
        Err(LoomError::UnexpectedEof)
    } else {
        dec_raw(
            bits,
            pos + bps,
            out.update(i, sign_extend(read_val(bits, pos, bps) as u64, bps as u64)),
            i + 1,
            e,
            bps,
        )
    }
}

/// Decoding Rice codes with parameter `k` for samples `i .. e` at `pos`.
pub open spec fn dec_rice(
    bits: Seq<bool>,
    pos: int,
    out: Seq<i64>,
    i: int,
    e: int,
    k: nat,
) -> Result<(Seq<i64>, int), LoomError>
    decreases e - i,
{
    if i >= e {
        Ok((out, pos))
    } else {
        match zero_run(bits, pos) {
            None => Err(LoomError::UnexpectedEof),
            Some(q) => if pos + q + 1 + k > bits.len() {
                Err(LoomError::UnexpectedEof)
            } else {
                let f = rice_join(q, k, read_val(bits, pos + q + 1, k));
                dec_rice(bits, pos + q + 1 + k, out.update(i, unfold_spec(f as int) as i64), i + 1, e, k)
            },
        }
    }
}

/// Decoding one partition holding samples `b .. e` at `pos`.
pub open spec fn dec_part(bits: Seq<bool>, pos: int, out: Seq<i64>, b: nat, e: nat) -> Result<
    (Seq<i64>, int),
    LoomError,
> {
    if pos + 4 > bits.len() {
        Err(LoomError::UnexpectedEof)
    } else {
        let k = read_val(bits, pos, 4);
        if b >= e {
            if k != 0 {
                Err(LoomError::InvalidData)
            } else {
                Ok((out, pos + 4))
            }
        } else if k == 15 {
            if pos + 9 > bits.len() {
                Err(LoomError::UnexpectedEof)
            } else {
                let bps = read_val(bits, pos + 4, 5);
                if bps == 0 {
                    Err(LoomError::InvalidData)
                } else {
                    dec_raw(bits, pos + 9, out, b as int, e as int, bps)
                }
            }
        } else {
            dec_rice(bits, pos + 4, out, b as int, e as int, k)
        }
    }
}

/// Decoding partitions `p ..` of `2^porder` at `pos`.
pub open spec fn dec_parts(
    bits: Seq<bool>,
    pos: int,
    out: Seq<i64>,
    warmup: nat,
    porder: nat,
    p: nat,
) -> Result<(Seq<i64>, int), LoomError>
    decreases pow2(porder) - p,
{
    if p >= pow2(porder) {
        Ok((out, pos))
    } else {
        match dec_part(
            bits,
            pos,
            out,
            part_begin(out.len(), porder, warmup, p),
            part_end(out.len(), porder, p),
        ) {
            Err(e) => Err(e),
            Ok((o2, p2)) => if o2.len() == out.len() {
                dec_parts(bits, p2, o2, warmup, porder, p + 1)
            } else {
                Err(LoomError::InvalidData)
            },
        }
    }
}

/// What decoding a partitioned Rice stream at `pos` into `out` gives: the filled-in
/// samples and the position after the stream.
pub open spec fn rice_decode(bits: Seq<bool>, pos: int, out: Seq<i64>, warmup: nat) -> Result<
    (Seq<i64>, int),
    LoomError,
> {
    if pos + 2 > bits.len() {
        Err(LoomError::UnexpectedEof)
    } else if read_val(bits, pos, 2) != 0 {
        Err(LoomError::InvalidData)
    } else if pos + 6 > bits.len() {
        Err(LoomError::UnexpectedEof)
    } else {
        dec_parts(bits, pos + 6, out, warmup, read_val(bits, pos + 2, 4), 0)
    }
}

/// Reads partitioned Rice codes into `residuals` (from `warmup_len` on).
pub fn decode_residuals(
    reader: &mut BitReader,
    residuals: &mut [i64],
    warmup_len: usize,
) -> (r: Result<(), LoomError>)
    requires
        old(reader).wf(),
    ensures
        final(reader).wf(),
        final(reader).data() == old(reader).data(),
        final(residuals)@.len() == old(residuals)@.len(),
        match rice_decode(old(reader).bits(), old(reader).pos() as int, old(residuals)@, warmup_len as nat) {
            Ok((o, p)) => r is Ok && final(residuals)@ == o && final(reader).pos() == p,
            Err(e) => r == Err::<(), LoomError>(e),
        },
{
    let total_len = residuals.len();
    proof {
        reader.lemma_wf();
        lemma2_to64();
        if reader.pos() + 2 <= reader.total() {
            lemma_bits_of_val(reader.bits().subrange(reader.pos() as int, reader.pos() + 2int));
        }
    }
    let coding_method = match reader.read_bits(2) {
        Ok(v) => v,
        Err(e) => {
            return Err(e);
        },
    };
    if coding_method != 0 {
        return Err(LoomError::InvalidData);
    }
    proof {
        reader.lemma_wf();
        if reader.pos() + 4 <= reader.total() {
            lemma_bits_of_val(reader.bits().subrange(reader.pos() as int, reader.pos() + 4int));
        }
    }
    let partition_order = match reader.read_bits(4) {
        Ok(v) => v as u32,
        Err(e) => {
            return Err(e);
        },
    };
    let ghost po = partition_order as nat;
    proof {
        vstd::arithmetic::power2::lemma_pow2_strictly_increases(po, 16);
        vstd::bits::lemma_usize_shl_is_mul(1, partition_order as usize);
        vstd::bits::lemma_usize_pow2_no_overflow(po);
    }
    let num_partitions: usize = 1 << partition_order;
    let partition_samples = total_len / num_partitions;
    let mut p: usize = 0;
    while p < num_partitions
        invariant
            reader.wf(),
            reader.data() == old(reader).data(),
            residuals@.len() == total_len,
            total_len == old(residuals)@.len(),
            num_partitions == pow2(po),
            po < 16,
            partition_samples == total_len / num_partitions,
            p <= num_partitions,
            rice_decode(old(reader).bits(), old(reader).pos() as int, old(residuals)@, warmup_len as nat)
                == dec_parts(reader.bits(), reader.pos() as int, residuals@, warmup_len as nat, po, p as nat),
        decreases num_partitions - p,
    {
        proof {
            lemma_part_bounds(total_len as nat, num_partitions as nat, p as nat);
        }
        let start = p * partition_samples;
        let mut end = start + partition_samples;
        if p == num_partitions - 1 {
            end = total_len;
        }
        let p_start = if p == 0 {
            if start > warmup_len {
                start
            } else {
                warmup_len
            }
        } else {
            start
        };
        proof {
            assert(p_start == part_begin(total_len as nat, po, warmup_len as nat, p as nat));
            assert(end == part_end(total_len as nat, po, p as nat));
        }
        match decode_partition(reader, residuals, p_start, end) {
            Err(e) => {
                return Err(e);
            },
            Ok(()) => {},
        }
        p = p + 1;
    }
    Ok(())
}

/// Reads the partition holding `residuals[p_start..end]`.
fn decode_partition(
    reader: &mut BitReader,
    residuals: &mut [i64],
    p_start: usize,
    end: usize,
) -> (r: Result<(), LoomError>)
    requires
        old(reader).wf(),
        end <= old(residuals)@.len(),
    ensures
        final(reader).wf(),
        final(reader).data() == old(reader).data(),
        final(residuals)@.len() == old(residuals)@.len(),
        match dec_part(old(reader).bits(), old(reader).pos() as int, old(residuals)@, p_start as nat, end as nat) {
            Ok((o, p)) => r is Ok && final(residuals)@ == o && final(reader).pos() == p,
            Err(e) => r == Err::<(), LoomError>(e),
        },
{
    proof {
        reader.lemma_wf();
        lemma2_to64();
        if reader.pos() + 4 <= reader.total() {
            lemma_bits_of_val(reader.bits().subrange(reader.pos() as int, reader.pos() + 4int));
        }
    }
    let k = match reader.read_bits(4) {
        Ok(v) => v as u32,
        Err(e) => {
            return Err(e);
        },
    };
    if p_start >= end {
        if k != 0 {
            return Err(LoomError::InvalidData);
        }
        return Ok(());
    }
    if k == 15 {
        proof {
            reader.lemma_wf();
            if reader.pos() + 5 <= reader.total() {
                lemma_bits_of_val(reader.bits().subrange(reader.pos() as int, reader.pos() + 5int));
            }
        }
        let unencoded_bps = match reader.read_bits(5) {
            Ok(v) => v as usize,
            Err(e) => {
                return Err(e);
            },
        };
        if unencoded_bps == 0 {
            return Err(LoomError::InvalidData);
        }
        let sign_bit = 1u64 << ((unencoded_bps - 1) as u64);
        proof {
            lemma_mask_bits(0, unencoded_bps as u64);
        }
        let mask = (1u64 << (unencoded_bps as u64)) - 1;
        let mut i = p_start;
        while i < end
            invariant
                reader.wf(),
                reader.data() == old(reader).data(),
                residuals@.len() == old(residuals)@.len(),
                end <= residuals@.len(),
                p_start <= i <= end,
                1 <= unencoded_bps <= 31,
                sign_bit == 1u64 << ((unencoded_bps - 1) as u64),
                mask == (1u64 << (unencoded_bps as u64)) - 1,
                dec_part(old(reader).bits(), old(reader).pos() as int, old(residuals)@, p_start as nat, end as nat)
                    == dec_raw(reader.bits(), reader.pos() as int, residuals@, i as int, end as int, unencoded_bps as nat),
            decreases end - i,
        {
            proof {
                reader.lemma_wf();
                if reader.pos() + unencoded_bps <= reader.total() {
                    lemma_bits_of_val(reader.bits().subrange(reader.pos() as int, reader.pos() + unencoded_bps));
                }
            }
            let uval = match reader.read_bits(unencoded_bps) {
                Ok(v) => v,
                Err(e) => {
                    return Err(e);
                },
            };
            let sval = if (uval & sign_bit) != 0 {
                (uval | !mask) as i64
            } else {
                uval as i64
            };
            residuals[i] = sval;
            i = i + 1;
        }
        Ok(())
    } else {
        let mut i = p_start;
        while i < end
            invariant
                reader.wf(),
                reader.data() == old(reader).data(),
                residuals@.len() == old(residuals)@.len(),
                end <= residuals@.len(),
                p_start <= i <= end,
                k < 15,
                dec_part(old(reader).bits(), old(reader).pos() as int, old(residuals)@, p_start as nat, end as nat)
                    == dec_rice(reader.bits(), reader.pos() as int, residuals@, i as int, end as int, k as nat),
            decreases end - i,
        {
            proof {
                reader.lemma_wf();
            }
            let q = match reader.read_unary() {
                Ok(v) => v,
                Err(e) => {
                    return Err(e);
                },
            };
            proof {
                reader.lemma_wf();
                if reader.pos() + k <= reader.total() {
                    lemma_bits_of_val(reader.bits().subrange(reader.pos() as int, reader.pos() + k));
                }
            }
            let r = match reader.read_bits(k as usize) {
                Ok(v) => v,
                Err(e) => {
                    return Err(e);
                },
            };
            let folded = (q << (k as u64)) | r;
            residuals[i] = unfold(folded);
            i = i + 1;
        }
        Ok(())
    }
}


/// Unfolding undoes folding.
pub proof fn lemma_unfold_fold(v: int)
    ensures
        unfold_spec(fold_spec(v)) == v,
        v >= 0 ==> fold_spec(v) % 2 == 0,
{
    if v >= 0 {
        assert((2 * v) % 2 == 0 && (2 * v) / 2 == v);
    } else {
        assert((-2 * v - 1) % 2 == 1 && (-2 * v - 1) / 2 == -v - 1);
    }
}

/// Folding undoes unfolding.
pub proof fn lemma_fold_unfold(u: int)
    requires
        u >= 0,
    ensures
        fold_spec(unfold_spec(u)) == u,
{
}

/// The samples of `out` in `b .. e` replaced by those of `res`.
pub open spec fn splice(out: Seq<i64>, res: Seq<i64>, b: int, e: int) -> Seq<i64> {
    Seq::new(out.len(), |j: int| if b <= j < e {
        res[j]
    } else {
        out[j]
    })
}

/// The samples a stream with these settings leaves alone: the warm-up samples inside the
/// first partition.
pub open spec fn rice_skip(total: nat, warmup: nat, porder: nat) -> nat {
    let e0 = part_end(total, porder, 0);
    if warmup < e0 {
        warmup
    } else {
        e0
    }
}

/// Every partition that goes raw holds only values that fit the raw width.
pub open spec fn rice_lossless(res: Seq<i64>, warmup: nat, porder: nat, allow_escape: bool) -> bool {
    forall|p: nat|
        p < pow2(porder) && #[trigger] part_begin(res.len(), porder, warmup, p) < part_end(
            res.len(),
            porder,
            p,
        ) ==> max_min_bits(
            res.subrange(
                part_begin(res.len(), porder, warmup, p) as int,
                part_end(res.len(), porder, p) as int,
            ),
        ) <= 31 || !allow_escape
}

proof fn lemma_max_min_bits(s: Seq<i64>, j: int)
    requires
        0 <= j < s.len(),
    ensures
        min_bits_spec(s[j] as int) <= max_min_bits(s),
    decreases s.len(),
{
    if j < s.len() - 1 {
        lemma_max_min_bits(s.drop_last(), j);
    }
}

proof fn lemma_raw_codes_front(s: Seq<i64>, bps: nat)
    requires
        s.len() > 0,
    ensures
        raw_codes(s, bps) =~= bits_of(s[0] as u64 as nat, bps) + raw_codes(s.drop_first(), bps),
    decreases s.len(),
{
    if s.len() == 1 {
        assert(s.drop_first() =~= Seq::<i64>::empty());
        assert(s.drop_last() =~= Seq::<i64>::empty());
    } else {
        lemma_raw_codes_front(s.drop_last(), bps);
        assert(s.drop_last().drop_first() =~= s.drop_first().drop_last());
    }
}

proof fn lemma_rice_codes_front(f: Seq<u64>, k: nat)
    requires
        f.len() > 0,
    ensures
        rice_codes(f, k) =~= rice_code(f[0], k) + rice_codes(f.drop_first(), k),
    decreases f.len(),
{
    if f.len() == 1 {
        assert(f.drop_first() =~= Seq::<u64>::empty());
        assert(f.drop_last() =~= Seq::<u64>::empty());
    } else {
        lemma_rice_codes_front(f.drop_last(), k);
        assert(f.drop_last().drop_first() =~= f.drop_first().drop_last());
    }
}

/// A raw value that fits the width is read back exactly.
pub proof fn lemma_raw_value(v: i64, b: u64)
    requires
        1 <= b <= 63,
        min_bits_spec(v as int) <= b,
    ensures
        sign_extend(((v as u64) as nat % pow2(b as nat)) as u64, b) == v,
{
    let bm1 = (b - 1) as u64;
    lemma_mask_bits(v as u64, b);
    lemma_mask_bits(v as u64, bm1);
    let mask = ((1u64 << b) - 1) as u64;
    let sb = 1u64 << bm1;
    if v >= 0 {
        lemma_bit_len_bound(v as nat, bm1 as nat);
    } else {
        assert(v < 0 ==> !v == -v - 1) by (bit_vector);
        lemma_bit_len_bound((-v - 1) as nat, bm1 as nat);
    }
    assert(((v >= 0 && (v as u64) < sb) || (v < 0 && ((!v) as u64) < sb)));
    assert((1u64 <= b && b <= 63 && bm1 + 1 == b && mask + 1 == (1u64 << b) && sb == (1u64 << bm1)
        && ((v >= 0 && (v as u64) < sb) || (v < 0 && ((!v) as u64) < sb))) ==> (if (((v as u64)
        & mask) & sb) != 0 {
        (((v as u64) & mask) | !mask) as i64
    } else {
        ((v as u64) & mask) as i64
    }) == v) by (bit_vector);
}

/// A Rice code is read back as the folded value.
proof fn lemma_rice_value(f: u64, k: nat)
    requires
        k < 15,
    ensures
        rice_join(f as nat / pow2(k), k, f as nat % pow2(k)) == f,
{
    let k64 = k as u64;
    lemma_mask_bits(f, k64);
    vstd::bits::lemma_u64_shr_is_div(f, k64);
    let m = ((1u64 << k64) - 1) as u64;
    assert(k64 < 64 && m + 1 == (1u64 << k64) ==> ((f >> k64) << k64) | (f & m) == f) by (bit_vector);
}

pub proof fn lemma_dec_raw(bits: Seq<bool>, pos: int, out: Seq<i64>, res: Seq<i64>, i: int, e: int, bps: nat)
    requires
        0 <= i <= e <= res.len(),
        res.len() == out.len(),
        1 <= bps <= 63,
        0 <= pos,
        pos + raw_codes(res.subrange(i, e), bps).len() <= bits.len(),
        bits.subrange(pos, pos + raw_codes(res.subrange(i, e), bps).len()) == raw_codes(
            res.subrange(i, e),
            bps,
        ),
        forall|j: int| i <= j < e ==> min_bits_spec(#[trigger] res[j] as int) <= bps,
    ensures
        dec_raw(bits, pos, out, i, e, bps) == Ok::<(Seq<i64>, int), LoomError>(
            (splice(out, res, i, e), pos + raw_codes(res.subrange(i, e), bps).len()),
        ),
    decreases e - i,
{
    let s = res.subrange(i, e);
    if i >= e {
        assert(splice(out, res, i, e) =~= out);
        assert(s =~= Seq::<i64>::empty());
    } else {
        lemma_raw_codes_front(s, bps);
        assert(s.drop_first() =~= res.subrange(i + 1, e));
        let x = bits_of(res[i] as u64 as nat, bps);
        lemma_bits_of_len(res[i] as u64 as nat, bps);
        let y = raw_codes(res.subrange(i + 1, e), bps);
        lemma_window_split(bits, pos, x, y);
        lemma_bits_val_of(res[i] as u64 as nat, bps);
        lemma_raw_value(res[i], bps as u64);
        let o2 = out.update(i, res[i]);
        lemma_dec_raw(bits, pos + bps, o2, res, i + 1, e, bps);
        assert(splice(o2, res, i + 1, e) =~= splice(out, res, i, e));
    }
}

proof fn lemma_dec_rice(bits: Seq<bool>, pos: int, out: Seq<i64>, res: Seq<i64>, i: int, e: int, k: nat)
    requires
        0 <= i <= e <= res.len(),
        res.len() == out.len(),
        k < 15,
        0 <= pos,
        pos + rice_codes(fold_seq(res.subrange(i, e)), k).len() <= bits.len(),
        bits.subrange(pos, pos + rice_codes(fold_seq(res.subrange(i, e)), k).len()) == rice_codes(
            fold_seq(res.subrange(i, e)),
            k,
        ),
    ensures
        dec_rice(bits, pos, out, i, e, k) == Ok::<(Seq<i64>, int), LoomError>(
            (splice(out, res, i, e), pos + rice_codes(fold_seq(res.subrange(i, e)), k).len()),
        ),
    decreases e - i,
{
    let s = res.subrange(i, e);
    let f = fold_seq(s);
    if i >= e {
        assert(splice(out, res, i, e) =~= out);
        assert(f =~= Seq::<u64>::empty());
    } else {
        lemma_rice_codes_front(f, k);
        assert(f.drop_first() =~= fold_seq(res.subrange(i + 1, e)));
        let v = f[0];
        assert(v as int == fold_spec(res[i] as int));
        let q = v as nat / pow2(k);
        let x = unary_bits(q);
        let z = bits_of(v as nat, k);
        lemma_bits_of_len(v as nat, k);
        let y = rice_codes(fold_seq(res.subrange(i + 1, e)), k);
        assert(rice_code(v, k) == x + z);
        assert(x + z + y =~= rice_code(v, k) + y);
        lemma_window_split(bits, pos, x + z, y);
        lemma_window_split(bits, pos, x, z);
        crate::bitstream::lemma_unary_len(q);
        lemma_zero_run_unary(bits, pos, q);
        lemma_bits_val_of(v as nat, k);
        lemma_rice_value(v, k);
        lemma_unfold_fold(res[i] as int);
        let o2 = out.update(i, res[i]);
        lemma_dec_rice(bits, pos + q + 1 + k, o2, res, i + 1, e, k);
        assert(splice(o2, res, i + 1, e) =~= splice(out, res, i, e));
    }
}

proof fn lemma_dec_part(bits: Seq<bool>, pos: int, out: Seq<i64>, res: Seq<i64>, b: nat, e: nat, allow_escape: bool)
    requires
        b <= e || b > e,
        e <= res.len(),
        res.len() == out.len(),
        0 <= pos,
        pos + part_bits(res, b, e, allow_escape).len() <= bits.len(),
        bits.subrange(pos, pos + part_bits(res, b, e, allow_escape).len()) == part_bits(
            res,
            b,
            e,
            allow_escape,
        ),
        b < e && allow_escape ==> max_min_bits(res.subrange(b as int, e as int)) <= 31,
    ensures
        dec_part(bits, pos, out, b, e) == Ok::<(Seq<i64>, int), LoomError>(
            (splice(out, res, b as int, e as int), pos + part_bits(res, b, e, allow_escape).len()),
        ),
{
    lemma2_to64();
    if b >= e {
        lemma_bits_of_len(0, 4);
        lemma_bits_val_of(0, 4);
        assert(splice(out, res, b as int, e as int) =~= out);
    } else {
        let s = res.subrange(b as int, e as int);
        let (k, bps) = part_param(s, allow_escape);
        if allow_escape {
            lemma_best_rice_lt(fold_seq(s), 15);
        } else {
            lemma_best_rice_lt(fold_seq(s), 15);
        }
        assert(k <= 15);
        let hk = bits_of(k, 4);
        lemma_bits_of_len(k, 4);
        lemma_bits_val_of(k, 4);
        vstd::arithmetic::div_mod::lemma_small_mod(k, 16);
        if k == 15 {
            let hb = bits_of(bps, 5);
            let body = raw_codes(s, bps);
            lemma_bits_of_len(bps, 5);
            lemma_bits_val_of(bps, 5);
            assert(bps <= 31 && bps >= 1);
            vstd::arithmetic::div_mod::lemma_small_mod(bps, 32);
            assert(part_bits(res, b, e, allow_escape) =~= hk + (hb + body));
            lemma_window_split(bits, pos, hk, hb + body);
            assert(hk + hb + body =~= hk + (hb + body));
            lemma_window_split(bits, pos, hk + hb, body);
            lemma_window_split(bits, pos, hk, hb);
            assert forall|j: int| b <= j < e implies min_bits_spec(#[trigger] res[j] as int) <= bps by {
                lemma_max_min_bits(s, j - b);
            }
            assert(s =~= res.subrange(b as int, e as int));
            lemma_dec_raw(bits, pos + 9, out, res, b as int, e as int, bps);
        } else {
            let body = rice_codes(fold_seq(s), k);
            assert(part_bits(res, b, e, allow_escape) =~= hk + body);
            lemma_window_split(bits, pos, hk, body);
            lemma_dec_rice(bits, pos + 4, out, res, b as int, e as int, k);
        }
    }
}


proof fn lemma_parts_prefix(res: Seq<i64>, warmup: nat, porder: nat, allow_escape: bool, m: nat, n: nat)
    requires
        m <= n,
    ensures
        parts_upto(res, warmup, porder, allow_escape, n).len() >= parts_upto(
            res,
            warmup,
            porder,
            allow_escape,
            m,
        ).len(),
        parts_upto(res, warmup, porder, allow_escape, n).subrange(
            0,
            parts_upto(res, warmup, porder, allow_escape, m).len() as int,
        ) == parts_upto(res, warmup, porder, allow_escape, m),
    decreases n,
{
    let pm = parts_upto(res, warmup, porder, allow_escape, m);
    if m < n {
        lemma_parts_prefix(res, warmup, porder, allow_escape, m, (n - 1) as nat);
        let pn1 = parts_upto(res, warmup, porder, allow_escape, (n - 1) as nat);
        let pn = parts_upto(res, warmup, porder, allow_escape, n);
        assert(pn.subrange(0, pm.len() as int) =~= pn1.subrange(0, pm.len() as int));
    } else {
        assert(pm.subrange(0, pm.len() as int) =~= pm);
    }
}

/// The samples after decoding the first `p` partitions over `out`.
pub open spec fn parts_out(out: Seq<i64>, res: Seq<i64>, warmup: nat, porder: nat, p: nat) -> Seq<i64> {
    if p == 0 {
        out
    } else {
        splice(
            out,
            res,
            rice_skip(res.len(), warmup, porder) as int,
            part_end(res.len(), porder, (p - 1) as nat) as int,
        )
    }
}

proof fn lemma_dec_parts(
    bits: Seq<bool>,
    pos0: int,
    out: Seq<i64>,
    res: Seq<i64>,
    warmup: nat,
    porder: nat,
    allow_escape: bool,
    p: nat,
)
    requires
        p <= pow2(porder),
        porder < 16,
        res.len() == out.len(),
        0 <= pos0,
        pos0 + parts_upto(res, warmup, porder, allow_escape, pow2(porder)).len() <= bits.len(),
        bits.subrange(pos0, pos0 + parts_upto(res, warmup, porder, allow_escape, pow2(porder)).len())
            == parts_upto(res, warmup, porder, allow_escape, pow2(porder)),
        rice_lossless(res, warmup, porder, allow_escape),
    ensures
        dec_parts(
            bits,
            pos0 + parts_upto(res, warmup, porder, allow_escape, p).len(),
            parts_out(out, res, warmup, porder, p),
            warmup,
            porder,
            p,
        ) == Ok::<(Seq<i64>, int), LoomError>(
            (
                parts_out(out, res, warmup, porder, pow2(porder)),
                pos0 + parts_upto(res, warmup, porder, allow_escape, pow2(porder)).len(),
            ),
        ),
    decreases pow2(porder) - p,
{
    let np = pow2(porder);
    let total = res.len();
    vstd::arithmetic::power2::lemma_pow2_pos(porder);
    if p < np {
        let ps = total / np;
        lemma_part_bounds(total, np, p);
        let b = part_begin(total, porder, warmup, p);
        let e = part_end(total, porder, p);
        let cur = parts_out(out, res, warmup, porder, p);
        assert(cur.len() == out.len());
        lemma_parts_prefix(res, warmup, porder, allow_escape, p + 1, np);
        let pu = parts_upto(res, warmup, porder, allow_escape, p);
        let part = part_bits(res, b, e, allow_escape);
        assert(parts_upto(res, warmup, porder, allow_escape, p + 1) == pu + part);
        assert(bits.subrange(pos0, pos0 + pu.len() + part.len()) =~= parts_upto(
            res,
            warmup,
            porder,
            allow_escape,
            np,
        ).subrange(0, (pu.len() + part.len()) as int));
        lemma_window_split(bits, pos0, pu, part);
        if b < e && allow_escape {
            assert(part_begin(res.len(), porder, warmup, p) < part_end(res.len(), porder, p));
        }
        lemma_dec_part(bits, pos0 + pu.len(), cur, res, b, e, allow_escape);
        let next = parts_out(out, res, warmup, porder, p + 1);
        if p == 0 {
            assert(splice(cur, res, b as int, e as int) =~= next);
        } else {
            assert(part_end(total, porder, (p - 1) as nat) == b);
            assert(rice_skip(total, warmup, porder) <= part_end(total, porder, 0));
            if np > 1 {
                assert(part_end(total, porder, 0) == ps);
                assert(ps <= p * ps) by (nonlinear_arith)
                    requires
                        p >= 1,
                ;
            }
            assert(splice(cur, res, b as int, e as int) =~= next);
        }
        lemma_dec_parts(bits, pos0, out, res, warmup, porder, allow_escape, p + 1);
    }
}

/// Decoding a partitioned Rice stream gives back the residuals that were encoded (all but
/// the warm-up samples of the first partition, which stay as they were), and ends right
/// after the stream. The one condition: every partition coded raw fits the raw width.
pub proof fn lemma_rice_roundtrip(
    bits: Seq<bool>,
    pos: int,
    out: Seq<i64>,
    res: Seq<i64>,
    warmup: nat,
    porder: nat,
    allow_escape: bool,
)
    requires
        0 <= pos,
        porder < 16,
        res.len() == out.len(),
        pos + rice_stream(res, warmup, porder, allow_escape).len() <= bits.len(),
        bits.subrange(pos, pos + rice_stream(res, warmup, porder, allow_escape).len())
            == rice_stream(res, warmup, porder, allow_escape),
        rice_lossless(res, warmup, porder, allow_escape),
    ensures
        rice_decode(bits, pos, out, warmup) == Ok::<(Seq<i64>, int), LoomError>(
            (
                splice(out, res, rice_skip(res.len(), warmup, porder) as int, res.len() as int),
                pos + rice_stream(res, warmup, porder, allow_escape).len(),
            ),
        ),
{
    lemma2_to64();
    let np = pow2(porder);
    let h1 = bits_of(0, 2);
    let h2 = bits_of(porder, 4);
    let body = parts_upto(res, warmup, porder, allow_escape, np);
    lemma_bits_of_len(0, 2);
    lemma_bits_of_len(porder, 4);
    lemma_bits_val_of(0, 2);
    lemma_bits_val_of(porder, 4);
    vstd::arithmetic::div_mod::lemma_small_mod(porder, 16);
    lemma_window_split(bits, pos, h1 + h2, body);
    lemma_window_split(bits, pos, h1, h2);
    assert(parts_upto(res, warmup, porder, allow_escape, 0).len() == 0);
    lemma_dec_parts(bits, pos + 6, out, res, warmup, porder, allow_escape, 0);
    vstd::arithmetic::power2::lemma_pow2_pos(porder);
    assert(part_end(res.len(), porder, (np - 1) as nat) == res.len());
}

} // verus!
