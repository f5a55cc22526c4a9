use crate::decorrelate::stereo::{abs_spec, in_i64, unsigned_abs};
use vstd::prelude::*;

verus! {

/// The share of a reference sample that a weight predicts: `(weight * reference) >> 7`.
pub open spec fn cross_pred(weight: i8, reference: i64) -> int {
    (weight as int * reference as int) / 128
}

/// Subtracting or adding the prediction stays within `i64` for samples `0 .. n`.
pub open spec fn cross_ok(target: Seq<i64>, reference: Seq<i64>, weight: i8, sign: int) -> bool {
    &&& reference.len() >= target.len()
    &&& forall|i: int|
        0 <= i < target.len() ==> in_i64(weight as int * #[trigger] reference[i] as int) && in_i64(
            target[i] as int + sign * cross_pred(weight, reference[i]),
        )
}

proof fn lemma_shr7(x: i64)
    ensures
        (x >> 7u64) as int == x as int / 128,
{
    assert(x >> 7u64 == x / 128) by (bit_vector);
}

/// Subtracts from each target sample the weighted reference sample.
pub fn apply_cross_prediction(target: &mut [i64], reference: &[i64], weight: i8)
    requires
        cross_ok(old(target)@, reference@, weight, -1),
    ensures
        final(target)@.len() == old(target)@.len(),
        forall|i: int|
            0 <= i < old(target)@.len() ==> #[trigger] final(target)@[i] == old(target)@[i] - cross_pred(
                weight,
                reference@[i],
            ),
{
    let scale = weight as i64;
    let mut i: usize = 0;
    while i < target.len()
        invariant
            i <= target@.len(),
            target@.len() == old(target)@.len(),
            cross_ok(old(target)@, reference@, weight, -1),
            scale == weight,
            forall|j: int| i <= j < target@.len() ==> #[trigger] target@[j] == old(target)@[j],
            forall|j: int|
                0 <= j < i ==> #[trigger] target@[j] == old(target)@[j] - cross_pred(
                    weight,
                    reference@[j],
                ),
        decreases target@.len() - i,
    {
        proof {
            assert(in_i64(weight as int * reference@[i as int] as int));
            lemma_shr7((scale * reference[i as int]) as i64);
        }
        let pred = (scale * reference[i]) >> 7;
        target[i] = target[i] - pred;
        i = i + 1;
    }
}

/// Adds back to each decoded sample the weighted reference sample.
pub fn reconstruct_cross_prediction(decoded: &mut [i64], reference: &[i64], weight: i8)
    requires
        cross_ok(old(decoded)@, reference@, weight, 1),
    ensures
        final(decoded)@.len() == old(decoded)@.len(),
        forall|i: int|
            0 <= i < old(decoded)@.len() ==> #[trigger] final(decoded)@[i] == old(decoded)@[i] + cross_pred(
                weight,
                reference@[i],
            ),
{
    let scale = weight as i64;
    let mut i: usize = 0;
    while i < decoded.len()
        invariant
            i <= decoded@.len(),
            decoded@.len() == old(decoded)@.len(),
            cross_ok(old(decoded)@, reference@, weight, 1),
            scale == weight,
            forall|j: int| i <= j < decoded@.len() ==> #[trigger] decoded@[j] == old(decoded)@[j],
            forall|j: int|
                0 <= j < i ==> #[trigger] decoded@[j] == old(decoded)@[j] + cross_pred(
                    weight,
                    reference@[j],
                ),
        decreases decoded@.len() - i,
    {
        proof {
            assert(in_i64(weight as int * reference@[i as int] as int));
            lemma_shr7((scale * reference[i as int]) as i64);
        }
        let pred = (scale * reference[i]) >> 7;
        decoded[i] = decoded[i] + pred;
        i = i + 1;
    }
}

/// Adding the prediction back undoes subtracting it.
pub proof fn lemma_cross_roundtrip(target: Seq<i64>, reference: Seq<i64>, weight: i8)
    requires
        cross_ok(target, reference, weight, -1),
    ensures
        cross_ok(
            Seq::new(target.len(), |i: int| (target[i] - cross_pred(weight, reference[i])) as i64),
            reference,
            weight,
            1,
        ),
        forall|i: int|
            0 <= i < target.len() ==> (target[i] - cross_pred(weight, reference[i])) as i64
                + cross_pred(weight, reference[i]) == target[i],
{
    let t2 = Seq::new(target.len(), |i: int| (target[i] - cross_pred(weight, reference[i])) as i64);
    assert forall|i: int| 0 <= i < t2.len() implies in_i64(weight as int * #[trigger] reference[i] as int)
        && in_i64(t2[i] as int + 1 * cross_pred(weight, reference[i])) by {
        assert(in_i64(weight as int * reference[i] as int));
    }
}

/// `sum_{i < n} target[i] * reference[i]`.
pub open spec fn dot(t: Seq<i64>, r: Seq<i64>, n: nat) -> int
    decreases n,
{
    if n == 0 {
        0
    } else {
        dot(t, r, (n - 1) as nat) + t[n - 1] as int * r[n - 1] as int
    }
}

/// `sum_{i < n} |target[i] * reference[i]|`.
pub open spec fn abs_dot(t: Seq<i64>, r: Seq<i64>, n: nat) -> int
    decreases n,
{
    if n == 0 {
        0
    } else {
        abs_dot(t, r, (n - 1) as nat) + (if t[n - 1] as int * r[n - 1] as int >= 0 {
            t[n - 1] as int * r[n - 1] as int
        } else {
            -(t[n - 1] as int * r[n - 1] as int)
        })
    }
}

/// `x / d` rounded to the nearest integer, halves away from zero.
pub open spec fn round_div(x: int, d: int) -> int {
    if x >= 0 {
        (2 * x + d) / (2 * d)
    } else {
        -((-2 * x + d) / (2 * d))
    }
}

/// The least-squares weight of the reference for the target in 1/128 steps, rounded and held
/// to `-128 ..= 127` (0 when the reference is silent).
pub open spec fn coupling_weight(t: Seq<i64>, r: Seq<i64>) -> i8 {
    let den = dot(r, r, t.len());
    if den == 0 {
        0
    } else {
        let w = round_div(128 * dot(t, r, t.len()), den);
        (if w < -128 {
            -128
        } else if w > 127 {
            127
        } else {
            w
        }) as i8
    }
}

/// `sum |target[i]|` and `sum |target[i] - prediction|` over the block.
pub open spec fn coupling_sums(t: Seq<i64>, r: Seq<i64>, w: i8, n: nat) -> (int, int)
    decreases n,
{
    if n == 0 {
        (0, 0)
    } else {
        let (a, b) = coupling_sums(t, r, w, (n - 1) as nat);
        let i = n - 1;
        (
            a + abs_spec(t[i]),
            b + abs_spec((t[i] - cross_pred(w, r[i])) as i64),
        )
    }
}

/// The sums the weight search takes fit their integer types.
pub open spec fn coupling_ok(t: Seq<i64>, r: Seq<i64>) -> bool {
    &&& r.len() >= t.len()
    &&& abs_dot(t, r, t.len()) <= 0x1_0000_0000_0000_0000_0000_0000
    &&& dot(r, r, t.len()) <= 0x1_0000_0000_0000_0000_0000_0000
    &&& forall|i: int|
        0 <= i < t.len() ==> in_i64(coupling_weight(t, r) as int * #[trigger] r[i] as int)
            && in_i64(t[i] - cross_pred(coupling_weight(t, r), r[i]))
    &&& coupling_sums(t, r, coupling_weight(t, r), t.len()).0 <= i64::MAX
    &&& coupling_sums(t, r, coupling_weight(t, r), t.len()).1 <= i64::MAX
}

proof fn lemma_dot_bounds(t: Seq<i64>, r: Seq<i64>, n: nat)
    requires
        n <= t.len(),
        n <= r.len(),
    ensures
        -abs_dot(t, r, n) <= dot(t, r, n) <= abs_dot(t, r, n),
        0 <= dot(r, r, n),
        abs_dot(t, r, n) >= 0,
    decreases n,
{
    if n > 0 {
        lemma_dot_bounds(t, r, (n - 1) as nat);
        let x = r[n - 1] as int;
        assert(x * x >= 0) by (nonlinear_arith);
    }
}

proof fn lemma_dot_mono(t: Seq<i64>, r: Seq<i64>, m: nat, n: nat)
    requires
        m <= n <= t.len(),
        n <= r.len(),
    ensures
        abs_dot(t, r, m) <= abs_dot(t, r, n),
        dot(r, r, m) <= dot(r, r, n),
    decreases n,
{
    if m < n {
        lemma_dot_mono(t, r, m, (n - 1) as nat);
        let x = r[n - 1] as int;
        assert(x * x >= 0) by (nonlinear_arith);
    }
}

proof fn lemma_coupling_sums_mono(t: Seq<i64>, r: Seq<i64>, w: i8, m: nat, n: nat)
    requires
        m <= n <= t.len(),
    ensures
        0 <= coupling_sums(t, r, w, m).0 <= coupling_sums(t, r, w, n).0,
        0 <= coupling_sums(t, r, w, m).1 <= coupling_sums(t, r, w, n).1,
    decreases n,
{
    if m < n {
        lemma_coupling_sums_mono(t, r, w, m, (n - 1) as nat);
    } else if n > 0 {
        lemma_coupling_sums_mono(t, r, w, 0, (n - 1) as nat);
    }
}

/// Finds the weight, in 1/128 steps, with which the reference best predicts the target, and
/// how much smaller the sum of magnitudes gets with it. The weight is the exact integer
/// quotient of the dot products, rounded half away from zero (`coupling_weight`), so where
/// that quotient lies within floating-point rounding of a half step, a floating-point
/// quotient may round to the neighbouring weight.
pub fn calculate_cross_coupling(target: &[i64], reference: &[i64]) -> (res: (i8, i64))
    requires
        coupling_ok(target@, reference@),
    ensures
        dot(reference@, reference@, target@.len()) == 0 ==> res == (0i8, 0i64),
        dot(reference@, reference@, target@.len()) != 0 ==> res.0 == coupling_weight(target@, reference@)
            && res.1 == coupling_sums(target@, reference@, res.0, target@.len()).0
            - coupling_sums(target@, reference@, res.0, target@.len()).1,
{
    let n = target.len();
    let mut num: i128 = 0;
    let mut den: i128 = 0;
    let mut i: usize = 0;
    while i < n
        invariant
            n == target@.len(),
            i <= n,
            coupling_ok(target@, reference@),
            num == dot(target@, reference@, i as nat),
            den == dot(reference@, reference@, i as nat),
        decreases n - i,
    {
        proof {
            lemma_dot_mono(target@, reference@, (i + 1) as nat, n as nat);
            lemma_dot_bounds(target@, reference@, (i + 1) as nat);
            let a = target@[i as int] as int;
            let b = reference@[i as int] as int;
            assert(a * b <= 0x8000_0000_0000_0000 * 0x8000_0000_0000_0000 && a * b >= -0x8000_0000_0000_0000 * 0x8000_0000_0000_0000) by (nonlinear_arith)
                requires
                    -0x8000_0000_0000_0000 <= a <= 0x7FFF_FFFF_FFFF_FFFF,
                    -0x8000_0000_0000_0000 <= b <= 0x7FFF_FFFF_FFFF_FFFF,
            ;
            assert(b * b <= 0x8000_0000_0000_0000 * 0x8000_0000_0000_0000) by (nonlinear_arith)
                requires
                    -0x8000_0000_0000_0000 <= b <= 0x7FFF_FFFF_FFFF_FFFF,
            ;
        }
        num = num + (target[i] as i128) * (reference[i] as i128);
        den = den + (reference[i] as i128) * (reference[i] as i128);
        i = i + 1;
    }
    if den == 0 {
        return (0, 0);
    }
    proof {
        lemma_dot_bounds(target@, reference@, n as nat);
    }
    let x: i128 = 128 * num;
    let w: i128 = if x >= 0 {
        (2 * x + den) / (2 * den)
    } else {
        -((-2 * x + den) / (2 * den))
    };
    proof {
        assert(w == round_div(128 * dot(target@, reference@, n as nat), den as int));
        if x >= 0 {
            assert((2 * x + den) / (2 * den) <= 2 * x + den) by (nonlinear_arith)
                requires
                    2 * x + den >= 0,
                    den > 0,
            ;
        } else {
            assert((-2 * x + den) / (2 * den) <= -2 * x + den) by (nonlinear_arith)
                requires
                    -2 * x + den >= 0,
                    den > 0,
            ;
        }
    }
    let wc: i128 = if w < -128 {
        -128
    } else if w > 127 {
        127
    } else {
        w
    };
    let w_q = wc as i8;
    let scale = w_q as i64;
    let mut sum_orig = 0u64;
    let mut sum_diff = 0u64;
    let mut j: usize = 0;
    while j < n
        invariant
            n == target@.len(),
            j <= n,
            coupling_ok(target@, reference@),
            w_q == coupling_weight(target@, reference@),
            scale == w_q,
            sum_orig == coupling_sums(target@, reference@, w_q, j as nat).0,
            sum_diff == coupling_sums(target@, reference@, w_q, j as nat).1,
        decreases n - j,
    {
        proof {
            lemma_coupling_sums_mono(target@, reference@, w_q, (j + 1) as nat, n as nat);
            assert(in_i64(w_q as int * reference@[j as int] as int));
            lemma_shr7((scale * reference[j as int]) as i64);
        }
        let pred = (scale * reference[j]) >> 7;
        let diff = target[j] - pred;
        sum_orig = sum_orig + unsigned_abs(target[j]);
        sum_diff = sum_diff + unsigned_abs(diff);
        j = j + 1;
    }
    let bits_saved = (sum_orig as i64) - (sum_diff as i64);
    (w_q, bits_saved)
}


proof fn lemma_prod_bound(a: i64, b: i64)
    requires
        -0x10_0000_0000 <= a <= 0x10_0000_0000,
        -0x10_0000_0000 <= b <= 0x10_0000_0000,
    ensures
        -0x100_0000_0000_0000_0000 <= a as int * b as int <= 0x100_0000_0000_0000_0000,
{
    assert(-0x100_0000_0000_0000_0000 <= a as int * b as int <= 0x100_0000_0000_0000_0000) by (nonlinear_arith)
        requires
            -0x10_0000_0000 <= a <= 0x10_0000_0000,
            -0x10_0000_0000 <= b <= 0x10_0000_0000,
    ;
}

/// Residuals within `2^36` of zero.
pub open spec fn within36(s: Seq<i64>) -> bool {
    forall|i: int| 0 <= i < s.len() ==> -0x10_0000_0000 <= #[trigger] s[i] <= 0x10_0000_0000
}

proof fn lemma_dots_bound(t: Seq<i64>, r: Seq<i64>, n: nat)
    requires
        n <= t.len(),
        n <= r.len(),
        within36(t),
        within36(r),
    ensures
        abs_dot(t, r, n) <= n * 0x100_0000_0000_0000_0000,
        dot(r, r, n) <= n * 0x100_0000_0000_0000_0000,
    decreases n,
{
    if n > 0 {
        lemma_dots_bound(t, r, (n - 1) as nat);
        assert(-0x10_0000_0000 <= t[n - 1] <= 0x10_0000_0000);
        assert(-0x10_0000_0000 <= r[n - 1] <= 0x10_0000_0000);
        lemma_prod_bound(t[n - 1], r[n - 1]);
        lemma_prod_bound(r[n - 1], r[n - 1]);
    }
}

proof fn lemma_sums_bound(t: Seq<i64>, r: Seq<i64>, w: i8, n: nat)
    requires
        n <= t.len(),
        n <= r.len(),
        within36(t),
        within36(r),
    ensures
        coupling_sums(t, r, w, n).0 <= n * 0x10_0000_0000,
        coupling_sums(t, r, w, n).1 <= n * 0x20_0000_0000,
    decreases n,
{
    if n > 0 {
        lemma_sums_bound(t, r, w, (n - 1) as nat);
        let i = n - 1;
        assert(-0x10_0000_0000 <= t[i] <= 0x10_0000_0000);
        assert(-0x10_0000_0000 <= r[i] <= 0x10_0000_0000);
        assert(-0x800_0000_0000 <= w as int * r[i] as int <= 0x800_0000_0000) by (nonlinear_arith)
            requires
                -128 <= w <= 127,
                -0x10_0000_0000 <= r[i] <= 0x10_0000_0000,
        ;
    }
}

/// A target and reference of at most 65535 residuals within `2^36` of zero: every sum the
/// coupling search takes fits its type.
pub proof fn lemma_coupling_bounded(t: Seq<i64>, r: Seq<i64>)
    requires
        t.len() <= 0xFFFF,
        r.len() >= t.len(),
        within36(t),
        within36(r),
    ensures
        coupling_ok(t, r),
{
    lemma_dots_bound(t, r, t.len());
    lemma_sums_bound(t, r, coupling_weight(t, r), t.len());
    assert(t.len() * 0x100_0000_0000_0000_0000 <= 0xFFFF * 0x100_0000_0000_0000_0000) by (nonlinear_arith)
        requires
            t.len() <= 0xFFFF,
    ;
    assert(t.len() * 0x20_0000_0000 <= 0xFFFF * 0x20_0000_0000) by (nonlinear_arith)
        requires
            t.len() <= 0xFFFF,
    ;
    let w = coupling_weight(t, r);
    assert forall|i: int| 0 <= i < t.len() implies in_i64(w as int * #[trigger] r[i] as int) && in_i64(
        t[i] - cross_pred(w, r[i]),
    ) by {
        assert(-0x10_0000_0000 <= t[i] <= 0x10_0000_0000);
        assert(-0x10_0000_0000 <= r[i] <= 0x10_0000_0000);
        assert(-0x800_0000_0000 <= w as int * r[i] as int <= 0x800_0000_0000) by (nonlinear_arith)
            requires
                -128 <= w <= 127,
                -0x10_0000_0000 <= r[i] <= 0x10_0000_0000,
        ;
    }
}

} // verus!
