use crate::decorrelate::stereo::in_i64;
use vstd::prelude::*;

verus! {

/// `sum_{j < m} c[j] * s[i - 1 - j]`.
pub open spec fn lpc_sum(c: Seq<i32>, s: Seq<i64>, i: int, m: nat) -> int
    decreases m,
{
    if m == 0 {
        0
    } else {
        lpc_sum(c, s, i, (m - 1) as nat) + c[m - 1] as int * s[i - m] as int
    }
}

/// Every product and partial sum of the prediction of sample `i` stays within `i64`.
pub open spec fn lpc_sum_ok(c: Seq<i32>, s: Seq<i64>, i: int, order: nat) -> bool {
    forall|m: nat| m < order ==> #[trigger] lpc_step_ok(c, s, i, m)
}

/// Term `m` of the prediction of sample `i`, and the sum up to it, stay within `i64`.
pub open spec fn lpc_step_ok(c: Seq<i32>, s: Seq<i64>, i: int, m: nat) -> bool {
    in_i64(c[m as int] as int * s[i - 1 - m] as int) && in_i64(lpc_sum(c, s, i, m + 1))
}

/// The quantized sum scaled back: shifted right by `shift`, or left by `-shift`.
pub open spec fn lpc_shift(sum: i64, shift: i8) -> i64 {
    if shift >= 0 {
        sum >> (shift as u32)
    } else {
        sum << ((-shift) as u32)
    }
}

/// The LPC prediction of sample `i`.
pub open spec fn lpc_pred(c: Seq<i32>, s: Seq<i64>, i: int, order: nat, shift: i8) -> int {
    lpc_shift(lpc_sum(c, s, i, order) as i64, shift) as int
}

/// The prediction only reads the `order` samples before `i`.
pub proof fn lemma_lpc_sum_local(c: Seq<i32>, a: Seq<i64>, b: Seq<i64>, i: int, order: nat)
    requires
        order <= i <= a.len(),
        i <= b.len(),
        a.take(i) == b.take(i),
    ensures
        forall|m: nat| m <= order ==> #[trigger] lpc_sum(c, a, i, m) == lpc_sum(c, b, i, m),
        lpc_sum_ok(c, a, i, order) ==> lpc_sum_ok(c, b, i, order),
        lpc_sum_ok(c, b, i, order) ==> lpc_sum_ok(c, a, i, order),
{
    assert forall|j: int| 0 <= j < i implies a[j] == b[j] by {
        assert(a.take(i)[j] == a[j]);
        assert(b.take(i)[j] == b[j]);
    }
    assert forall|m: nat| m <= order implies #[trigger] lpc_sum(c, a, i, m) == lpc_sum(c, b, i, m) by {
        lemma_lpc_sum_local_m(c, a, b, i, m);
    }
    if lpc_sum_ok(c, a, i, order) {
        assert forall|m: nat| m < order implies #[trigger] lpc_step_ok(c, b, i, m) by {
            lemma_lpc_sum_local_m(c, a, b, i, m + 1);
            assert(lpc_step_ok(c, a, i, m));
            assert(a[i - 1 - m] == b[i - 1 - m]);
        }
    }
    if lpc_sum_ok(c, b, i, order) {
        assert forall|m: nat| m < order implies #[trigger] lpc_step_ok(c, a, i, m) by {
            lemma_lpc_sum_local_m(c, a, b, i, m + 1);
            assert(lpc_step_ok(c, b, i, m));
            assert(a[i - 1 - m] == b[i - 1 - m]);
        }
    }
}

proof fn lemma_lpc_sum_local_m(c: Seq<i32>, a: Seq<i64>, b: Seq<i64>, i: int, m: nat)
    requires
        m <= i,
        forall|j: int| 0 <= j < i ==> a[j] == b[j],
    ensures
        lpc_sum(c, a, i, m) == lpc_sum(c, b, i, m),
    decreases m,
{
    if m > 0 {
        lemma_lpc_sum_local_m(c, a, b, i, (m - 1) as nat);
    }
}

fn lpc_predict(samples: &[i64], qlp_coeffs: &[i32], qlp_shift: i8, order: usize, i: usize) -> (r: i64)
    requires
        order <= i <= samples@.len(),
        order <= qlp_coeffs@.len(),
        -64 < qlp_shift < 64,
        lpc_sum_ok(qlp_coeffs@, samples@, i as int, order as nat),
    ensures
        r == lpc_pred(qlp_coeffs@, samples@, i as int, order as nat, qlp_shift),
{
    let mut sum = 0i64;
    let mut j: usize = 0;
    while j < order
        invariant
            j <= order,
            order <= i <= samples@.len(),
            order <= qlp_coeffs@.len(),
            lpc_sum_ok(qlp_coeffs@, samples@, i as int, order as nat),
            sum == lpc_sum(qlp_coeffs@, samples@, i as int, j as nat),
        decreases order - j,
    {
        proof {
            assert(lpc_step_ok(qlp_coeffs@, samples@, i as int, j as nat));
        }
        sum = sum + qlp_coeffs[j] as i64 * samples[i - 1 - j];
        j = j + 1;
    }
    if qlp_shift >= 0 {
        sum >> (qlp_shift as u32)
    } else {
        sum << ((-qlp_shift) as u32)
    }
}

/// The LPC residuals: the first `order` samples as they are, then each sample minus its
/// prediction.
pub open spec fn lpc_residuals(s: Seq<i64>, c: Seq<i32>, shift: i8, order: nat) -> Seq<i64> {
    Seq::new(
        s.len(),
        |i: int| if i < order {
            s[i]
        } else {
            (s[i] - lpc_pred(c, s, i, order, shift)) as i64
        },
    )
}

/// Computing the residuals stays within `i64`.
pub open spec fn lpc_residuals_ok(s: Seq<i64>, c: Seq<i32>, shift: i8, order: nat) -> bool {
    forall|i: int|
        order <= i < s.len() ==> #[trigger] lpc_sum_ok(c, s, i, order) && in_i64(
            s[i] - lpc_pred(c, s, i, order, shift),
        )
}

pub fn compute_lpc_residuals(samples: &[i64], qlp_coeffs: &[i32], qlp_shift: i8, order: usize) -> (r:
    Vec<i64>)
    requires
        order <= samples@.len(),
        order <= qlp_coeffs@.len(),
        -64 < qlp_shift < 64,
        lpc_residuals_ok(samples@, qlp_coeffs@, qlp_shift, order as nat),
    ensures
        r@ == lpc_residuals(samples@, qlp_coeffs@, qlp_shift, order as nat),
{
    let mut residuals: Vec<i64> = Vec::with_capacity(samples.len());
    let mut i: usize = 0;
    while i < samples.len()
        invariant
            i <= samples@.len(),
            order <= samples@.len(),
            order <= qlp_coeffs@.len(),
            -64 < qlp_shift < 64,
            lpc_residuals_ok(samples@, qlp_coeffs@, qlp_shift, order as nat),
            residuals@ =~= lpc_residuals(samples@, qlp_coeffs@, qlp_shift, order as nat).take(i as int),
        decreases samples@.len() - i,
    {
        if i < order {
            residuals.push(samples[i]);
        } else {
            assert(lpc_sum_ok(qlp_coeffs@, samples@, i as int, order as nat));
            let prediction = lpc_predict(samples, qlp_coeffs, qlp_shift, order, i);
            residuals.push(samples[i] - prediction);
        }
        i = i + 1;
    }
    proof {
        assert(lpc_residuals(samples@, qlp_coeffs@, qlp_shift, order as nat).take(samples@.len() as int)
            =~= lpc_residuals(samples@, qlp_coeffs@, qlp_shift, order as nat));
    }
    residuals
}

/// The first `n` samples rebuilt from LPC residuals.
pub open spec fn lpc_recon(res: Seq<i64>, c: Seq<i32>, shift: i8, order: nat, n: nat) -> Seq<i64>
    decreases n,
{
    if n == 0 {
        Seq::empty()
    } else {
        let prev = lpc_recon(res, c, shift, order, (n - 1) as nat);
        prev.push(
            if n - 1 < order {
                res[n - 1]
            } else {
                (res[n - 1] + lpc_pred(c, prev, n - 1, order, shift)) as i64
            },
        )
    }
}

/// Rebuilding every sample stays within `i64`.
pub open spec fn lpc_recon_ok(res: Seq<i64>, c: Seq<i32>, shift: i8, order: nat) -> bool {
    forall|n: nat|
        order <= n < res.len() ==> #[trigger] lpc_sum_ok(c, lpc_recon(res, c, shift, order, n), n as int, order)
            && in_i64(res[n as int] + lpc_pred(c, lpc_recon(res, c, shift, order, n), n as int, order, shift))
}

pub proof fn lemma_lpc_recon_len(res: Seq<i64>, c: Seq<i32>, shift: i8, order: nat, n: nat)
    ensures
        lpc_recon(res, c, shift, order, n).len() == n,
    decreases n,
{
    if n > 0 {
        lemma_lpc_recon_len(res, c, shift, order, (n - 1) as nat);
    }
}

/// Rebuilds samples from LPC residuals.
pub fn reconstruct_lpc(residuals: &[i64], qlp_coeffs: &[i32], qlp_shift: i8, order: usize, samples: &mut [i64])
    requires
        order <= residuals@.len(),
        order <= qlp_coeffs@.len(),
        residuals@.len() <= old(samples)@.len(),
        -64 < qlp_shift < 64,
        lpc_recon_ok(residuals@, qlp_coeffs@, qlp_shift, order as nat),
    ensures
        final(samples)@.len() == old(samples)@.len(),
        final(samples)@.take(residuals@.len() as int) == lpc_recon(
            residuals@,
            qlp_coeffs@,
            qlp_shift,
            order as nat,
            residuals@.len() as nat,
        ),
        final(samples)@.skip(residuals@.len() as int) == old(samples)@.skip(residuals@.len() as int),
{
    let mut i: usize = 0;
    while i < residuals.len()
        invariant
            i <= residuals@.len(),
            order <= residuals@.len(),
            order <= qlp_coeffs@.len(),
            residuals@.len() <= samples@.len(),
            samples@.len() == old(samples)@.len(),
            -64 < qlp_shift < 64,
            lpc_recon_ok(residuals@, qlp_coeffs@, qlp_shift, order as nat),
            samples@.take(i as int) == lpc_recon(residuals@, qlp_coeffs@, qlp_shift, order as nat, i as nat),
            samples@.skip(residuals@.len() as int) == old(samples)@.skip(residuals@.len() as int),
        decreases residuals@.len() - i,
    {
        proof {
            lemma_lpc_recon_len(residuals@, qlp_coeffs@, qlp_shift, order as nat, i as nat);
        }
        if i < order {
            samples[i] = residuals[i];
        } else {
            let ghost prev = lpc_recon(residuals@, qlp_coeffs@, qlp_shift, order as nat, i as nat);
            proof {
                assert(prev.take(i as int) =~= prev);
                assert(lpc_sum_ok(qlp_coeffs@, prev, i as int, order as nat));
                lemma_lpc_sum_local(qlp_coeffs@, samples@, prev, i as int, order as nat);
            }
            let prediction = lpc_predict(samples, qlp_coeffs, qlp_shift, order, i);
            samples[i] = residuals[i] + prediction;
        }
        proof {
            assert(samples@.take(i + 1) =~= lpc_recon(residuals@, qlp_coeffs@, qlp_shift, order as nat, (i + 1) as nat));
            assert(samples@.skip(residuals@.len() as int) =~= old(samples)@.skip(residuals@.len() as int));
        }
        i = i + 1;
    }
}

proof fn lemma_lpc_recon_prefix(s: Seq<i64>, c: Seq<i32>, shift: i8, order: nat, n: nat)
    requires
        n <= s.len(),
        lpc_residuals_ok(s, c, shift, order),
    ensures
        lpc_recon(lpc_residuals(s, c, shift, order), c, shift, order, n) == s.take(n as int),
    decreases n,
{
    let res = lpc_residuals(s, c, shift, order);
    if n > 0 {
        lemma_lpc_recon_prefix(s, c, shift, order, (n - 1) as nat);
        let prev = lpc_recon(res, c, shift, order, (n - 1) as nat);
        if n - 1 >= order {
            assert(prev.take(n - 1) =~= s.take(n - 1));
            assert(lpc_sum_ok(c, s, n - 1, order));
            lemma_lpc_sum_local(c, s, prev, n - 1, order);
        }
        assert(lpc_recon(res, c, shift, order, n) =~= s.take(n as int));
    } else {
        assert(s.take(0) =~= Seq::<i64>::empty());
    }
}

/// Rebuilding from the LPC residuals gives the samples back, with no overflow on the way.
pub proof fn lemma_lpc_roundtrip(s: Seq<i64>, c: Seq<i32>, shift: i8, order: nat)
    requires
        order <= s.len(),
        lpc_residuals_ok(s, c, shift, order),
    ensures
        lpc_recon_ok(lpc_residuals(s, c, shift, order), c, shift, order),
        lpc_recon(lpc_residuals(s, c, shift, order), c, shift, order, s.len()) == s,
{
    let res = lpc_residuals(s, c, shift, order);
    lemma_lpc_recon_prefix(s, c, shift, order, s.len());
    assert(s.take(s.len() as int) =~= s);
    assert forall|n: nat| order <= n < res.len() implies #[trigger] lpc_sum_ok(
        c,
        lpc_recon(res, c, shift, order, n),
        n as int,
        order,
    ) && in_i64(res[n as int] + lpc_pred(c, lpc_recon(res, c, shift, order, n), n as int, order, shift)) by {
        lemma_lpc_recon_prefix(s, c, shift, order, n);
        lemma_lpc_recon_len(res, c, shift, order, n);
        assert(lpc_recon(res, c, shift, order, n).take(n as int) =~= lpc_recon(res, c, shift, order, n));
        assert(s.take(n as int).take(n as int) =~= s.take(n as int));
        lemma_lpc_sum_local(c, s, lpc_recon(res, c, shift, order, n), n as int, order);
        assert(lpc_sum_ok(c, s, n as int, order));
    }
}


/// The LPC prediction of sample `i`, or none where a product or partial sum leaves `i64`.
pub fn lpc_predict_checked(samples: &[i64], qlp_coeffs: &[i32], qlp_shift: i8, order: usize, i: usize) -> (r:
    Option<i64>)
    requires
        order <= i <= samples@.len(),
        order <= qlp_coeffs@.len(),
        -64 < qlp_shift < 64,
    ensures
        r is Some <==> lpc_sum_ok(qlp_coeffs@, samples@, i as int, order as nat),
        r matches Some(v) ==> v == lpc_pred(qlp_coeffs@, samples@, i as int, order as nat, qlp_shift),
{
    let mut sum = 0i64;
    let mut j: usize = 0;
    while j < order
        invariant
            j <= order,
            order <= i <= samples@.len(),
            order <= qlp_coeffs@.len(),
            forall|m: nat| m < j ==> #[trigger] lpc_step_ok(qlp_coeffs@, samples@, i as int, m),
            sum == lpc_sum(qlp_coeffs@, samples@, i as int, j as nat),
        decreases order - j,
    {
        proof {
            let a = qlp_coeffs@[j as int] as int;
            let b = samples@[i - 1 - j] as int;
            assert(-0x8000_0000_0000_0000_0000_0000 <= a * b <= 0x8000_0000_0000_0000_0000_0000) by (nonlinear_arith)
                requires
                    -0x8000_0000 <= a < 0x8000_0000,
                    -0x8000_0000_0000_0000 <= b < 0x8000_0000_0000_0000,
            ;
        }
        let prod = qlp_coeffs[j] as i128 * samples[i - 1 - j] as i128;
        if prod < -0x8000_0000_0000_0000 || prod > 0x7FFF_FFFF_FFFF_FFFF {
            proof {
                assert(!lpc_step_ok(qlp_coeffs@, samples@, i as int, j as nat));
            }
            return None;
        }
        let next = sum as i128 + prod;
        if next < -0x8000_0000_0000_0000 || next > 0x7FFF_FFFF_FFFF_FFFF {
            proof {
                assert(!lpc_step_ok(qlp_coeffs@, samples@, i as int, j as nat));
            }
            return None;
        }
        sum = next as i64;
        j = j + 1;
    }
    if qlp_shift >= 0 {
        Some(sum >> (qlp_shift as u32))
    } else {
        Some(sum << ((-qlp_shift) as u32))
    }
}

/// Rebuilds samples from LPC residuals, or none where that leaves `i64`.
pub fn reconstruct_lpc_checked(residuals: &[i64], qlp_coeffs: &[i32], qlp_shift: i8, order: usize) -> (r:
    Option<Vec<i64>>)
    requires
        order <= residuals@.len(),
        order <= qlp_coeffs@.len(),
        -64 < qlp_shift < 64,
    ensures
        r is Some <==> lpc_recon_ok(residuals@, qlp_coeffs@, qlp_shift, order as nat),
        r matches Some(v) ==> v@ == lpc_recon(residuals@, qlp_coeffs@, qlp_shift, order as nat, residuals@.len()),
{
    let mut samples: Vec<i64> = Vec::with_capacity(residuals.len());
    let mut i: usize = 0;
    while i < residuals.len()
        invariant
            i <= residuals@.len(),
            order <= residuals@.len(),
            order <= qlp_coeffs@.len(),
            -64 < qlp_shift < 64,
            samples@ == lpc_recon(residuals@, qlp_coeffs@, qlp_shift, order as nat, i as nat),
            forall|n: nat|
                order <= n < i ==> #[trigger] lpc_sum_ok(qlp_coeffs@, lpc_recon(residuals@, qlp_coeffs@, qlp_shift, order as nat, n), n as int, order as nat)
                    && in_i64(residuals@[n as int] + lpc_pred(qlp_coeffs@, lpc_recon(residuals@, qlp_coeffs@, qlp_shift, order as nat, n), n as int, order as nat, qlp_shift)),
        decreases residuals@.len() - i,
    {
        proof {
            lemma_lpc_recon_len(residuals@, qlp_coeffs@, qlp_shift, order as nat, i as nat);
        }
        if i < order {
            samples.push(residuals[i]);
        } else {
            let p = match lpc_predict_checked(samples.as_slice(), qlp_coeffs, qlp_shift, order, i) {
                Some(v) => v,
                None => {
                    return None;
                },
            };
            let x = residuals[i] as i128 + p as i128;
            if x < -0x8000_0000_0000_0000 || x > 0x7FFF_FFFF_FFFF_FFFF {
                return None;
            }
            proof {
                assert(lpc_sum_ok(qlp_coeffs@, lpc_recon(residuals@, qlp_coeffs@, qlp_shift, order as nat, i as nat), i as int, order as nat));
                assert(in_i64(residuals@[i as int] + lpc_pred(qlp_coeffs@, lpc_recon(residuals@, qlp_coeffs@, qlp_shift, order as nat, i as nat), i as int, order as nat, qlp_shift)));
            }
            samples.push(x as i64);
        }
        proof {
            assert(samples@ =~= lpc_recon(residuals@, qlp_coeffs@, qlp_shift, order as nat, (i + 1) as nat));
            assert forall|n: nat| order <= n < i + 1 implies #[trigger] lpc_sum_ok(
                qlp_coeffs@,
                lpc_recon(residuals@, qlp_coeffs@, qlp_shift, order as nat, n),
                n as int,
                order as nat,
            ) && in_i64(residuals@[n as int] + lpc_pred(qlp_coeffs@, lpc_recon(residuals@, qlp_coeffs@, qlp_shift, order as nat, n), n as int, order as nat, qlp_shift)) by {
                if n < i {
                } else {
                    assert(n == i);
                }
            }
        }
        i = i + 1;
    }
    Some(samples)
}

} // verus!
