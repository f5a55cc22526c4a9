use crate::decorrelate::stereo::in_i64;
use vstd::prelude::*;

verus! {

/// The fixed polynomial prediction of sample `n` from the `order` samples before it.
pub open spec fn fixed_pred(s: Seq<i64>, n: int, order: nat) -> int {
    if order == 0 {
        0
    } else if order == 1 {
        s[n - 1] as int
    } else if order == 2 {
        2 * s[n - 1] - s[n - 2]
    } else if order == 3 {
        3 * s[n - 1] - 3 * s[n - 2] + s[n - 3]
    } else {
        4 * s[n - 1] - 6 * s[n - 2] + 4 * s[n - 3] - s[n - 4]
    }
}

/// Every step of the prediction of sample `n` stays within `i64`.
pub open spec fn fixed_pred_ok(s: Seq<i64>, n: int, order: nat) -> bool {
    if order <= 1 {
        true
    } else if order == 2 {
        in_i64(2 * s[n - 1]) && in_i64(2 * s[n - 1] - s[n - 2])
    } else if order == 3 {
        in_i64(3 * s[n - 1]) && in_i64(3 * s[n - 2]) && in_i64(3 * s[n - 1] - 3 * s[n - 2])
            && in_i64(3 * s[n - 1] - 3 * s[n - 2] + s[n - 3])
    } else {
        in_i64(4 * s[n - 1]) && in_i64(6 * s[n - 2]) && in_i64(4 * s[n - 1] - 6 * s[n - 2])
            && in_i64(4 * s[n - 3]) && in_i64(4 * s[n - 1] - 6 * s[n - 2] + 4 * s[n - 3])
            && in_i64(4 * s[n - 1] - 6 * s[n - 2] + 4 * s[n - 3] - s[n - 4])
    }
}

/// The prediction only reads the `order` samples before `n`.
pub proof fn lemma_fixed_pred_local(a: Seq<i64>, b: Seq<i64>, n: int, order: nat)
    requires
        order <= n <= a.len(),
        n <= b.len(),
        a.take(n) == b.take(n),
    ensures
        fixed_pred(a, n, order) == fixed_pred(b, n, order),
        fixed_pred_ok(a, n, order) == fixed_pred_ok(b, n, order),
{
    assert forall|j: int| 0 <= j < n implies a[j] == b[j] by {
        assert(a.take(n)[j] == a[j]);
        assert(b.take(n)[j] == b[j]);
        assert(a.take(n)[j] == b.take(n)[j]);
    }
    if order >= 1 {
        assert(a[n - 1] == b[n - 1]);
    }
    if order >= 2 {
        assert(a[n - 2] == b[n - 2]);
    }
    if order >= 3 {
        assert(a[n - 3] == b[n - 3]);
    }
    if order >= 4 {
        assert(a[n - 4] == b[n - 4]);
    }
}

/// Predicts sample `n` from the `order` samples before it.
pub fn predict_fixed(samples: &[i64], n: usize, order: usize) -> (r: i64)
    requires
        order <= 4,
        order <= n <= samples@.len(),
        fixed_pred_ok(samples@, n as int, order as nat),
    ensures
        r == fixed_pred(samples@, n as int, order as nat),
{
    match order {
        0 => 0,
        1 => samples[n - 1],
        2 => 2 * samples[n - 1] - samples[n - 2],
        3 => 3 * samples[n - 1] - 3 * samples[n - 2] + samples[n - 3],
        _ => 4 * samples[n - 1] - 6 * samples[n - 2] + 4 * samples[n - 3] - samples[n - 4],
    }
}

/// The fixed-predictor residuals: the first `order` samples as they are, then each sample
/// minus its prediction.
pub open spec fn fixed_residuals(s: Seq<i64>, order: nat) -> Seq<i64> {
    Seq::new(
        s.len(),
        |i: int| if i < order {
            s[i]
        } else {
            (s[i] - fixed_pred(s, i, order)) as i64
        },
    )
}

/// Computing the residuals stays within `i64`.
pub open spec fn fixed_residuals_ok(s: Seq<i64>, order: nat) -> bool {
    forall|i: int|
        order <= i < s.len() ==> #[trigger] fixed_pred_ok(s, i, order) && in_i64(
            s[i] - fixed_pred(s, i, order),
        )
}

pub fn compute_fixed_residuals(samples: &[i64], order: usize) -> (r: Vec<i64>)
    requires
        order <= 4,
        order <= samples@.len(),
        fixed_residuals_ok(samples@, order as nat),
    ensures
        r@ == fixed_residuals(samples@, order as nat),
{
    let mut residuals: Vec<i64> = Vec::with_capacity(samples.len());
    let mut i: usize = 0;
    while i < samples.len()
        invariant
            i <= samples@.len(),
            order <= 4,
            order <= samples@.len(),
            fixed_residuals_ok(samples@, order as nat),
            residuals@ =~= fixed_residuals(samples@, order as nat).take(i as int),
        decreases samples@.len() - i,
    {
        if i < order {
            residuals.push(samples[i]);
        } else {
            assert(fixed_pred_ok(samples@, i as int, order as nat));
            let prediction = predict_fixed(samples, i, order);
            residuals.push(samples[i] - prediction);
        }
        i = i + 1;
    }
    proof {
        assert(fixed_residuals(samples@, order as nat).take(samples@.len() as int)
            =~= fixed_residuals(samples@, order as nat));
    }
    residuals
}

/// The first `n` samples rebuilt from residuals.
pub open spec fn fixed_recon(res: Seq<i64>, order: nat, n: nat) -> Seq<i64>
    decreases n,
{
    if n == 0 {
        Seq::empty()
    } else {
        let prev = fixed_recon(res, order, (n - 1) as nat);
        prev.push(
            if n - 1 < order {
                res[n - 1]
            } else {
                (res[n - 1] + fixed_pred(prev, n - 1, order)) as i64
            },
        )
    }
}

/// Rebuilding every sample stays within `i64`.
pub open spec fn fixed_recon_ok(res: Seq<i64>, order: nat) -> bool {
    forall|n: nat|
        order <= n < res.len() ==> #[trigger] fixed_pred_ok(fixed_recon(res, order, n), n as int, order)
            && in_i64(res[n as int] + fixed_pred(fixed_recon(res, order, n), n as int, order))
}

pub proof fn lemma_fixed_recon_len(res: Seq<i64>, order: nat, n: nat)
    ensures
        fixed_recon(res, order, n).len() == n,
    decreases n,
{
    if n > 0 {
        lemma_fixed_recon_len(res, order, (n - 1) as nat);
    }
}

/// Rebuilds samples from fixed-predictor residuals.
pub fn reconstruct_fixed(residuals: &[i64], samples: &mut [i64], order: usize)
    requires
        order <= 4,
        order <= residuals@.len(),
        residuals@.len() <= old(samples)@.len(),
        fixed_recon_ok(residuals@, order as nat),
    ensures
        final(samples)@.len() == old(samples)@.len(),
        final(samples)@.take(residuals@.len() as int) == fixed_recon(
            residuals@,
            order as nat,
            residuals@.len() as nat,
        ),
        final(samples)@.skip(residuals@.len() as int) == old(samples)@.skip(residuals@.len() as int),
{
    let mut i: usize = 0;
    while i < residuals.len()
        invariant
            i <= residuals@.len(),
            order <= 4,
            order <= residuals@.len(),
            residuals@.len() <= samples@.len(),
            samples@.len() == old(samples)@.len(),
            fixed_recon_ok(residuals@, order as nat),
            samples@.take(i as int) == fixed_recon(residuals@, order as nat, i as nat),
            samples@.skip(residuals@.len() as int) == old(samples)@.skip(residuals@.len() as int),
        decreases residuals@.len() - i,
    {
        proof {
            lemma_fixed_recon_len(residuals@, order as nat, i as nat);
        }
        if i < order {
            samples[i] = residuals[i];
        } else {
            let ghost prev = fixed_recon(residuals@, order as nat, i as nat);
            proof {
                assert(prev.take(i as int) =~= prev);
                assert(fixed_pred_ok(prev, i as int, order as nat));
                lemma_fixed_pred_local(samples@, prev, i as int, order as nat);
            }
            let prediction = predict_fixed(samples, i, order);
            samples[i] = residuals[i] + prediction;
        }
        proof {
            assert(samples@.take(i + 1) =~= fixed_recon(residuals@, order as nat, (i + 1) as nat));
            assert(samples@.skip(residuals@.len() as int) =~= old(samples)@.skip(residuals@.len() as int));
        }
        i = i + 1;
    }
}

/// Rebuilding from the residuals gives the samples back, with no overflow on the way.
pub proof fn lemma_fixed_roundtrip(s: Seq<i64>, order: nat)
    requires
        order <= 4,
        order <= s.len(),
        fixed_residuals_ok(s, order),
    ensures
        fixed_recon_ok(fixed_residuals(s, order), order),
        fixed_recon(fixed_residuals(s, order), order, s.len()) == s,
{
    let res = fixed_residuals(s, order);
    lemma_fixed_recon_prefix(s, order, s.len());
    assert(s.take(s.len() as int) =~= s);
    assert forall|n: nat| order <= n < res.len() implies #[trigger] fixed_pred_ok(
        fixed_recon(res, order, n),
        n as int,
        order,
    ) && in_i64(res[n as int] + fixed_pred(fixed_recon(res, order, n), n as int, order)) by {
        lemma_fixed_recon_prefix(s, order, n);
        lemma_fixed_recon_len(res, order, n);
        assert(fixed_recon(res, order, n).take(n as int) =~= fixed_recon(res, order, n));
        assert(s.take(n as int).take(n as int) =~= s.take(n as int));
        lemma_fixed_pred_local(s, fixed_recon(res, order, n), n as int, order);
        assert(fixed_pred_ok(s, n as int, order));
    }
}

proof fn lemma_fixed_recon_prefix(s: Seq<i64>, order: nat, n: nat)
    requires
        order <= 4,
        n <= s.len(),
        fixed_residuals_ok(s, order),
    ensures
        fixed_recon(fixed_residuals(s, order), order, n) == s.take(n as int),
    decreases n,
{
    let res = fixed_residuals(s, order);
    if n > 0 {
        lemma_fixed_recon_prefix(s, order, (n - 1) as nat);
        let prev = fixed_recon(res, order, (n - 1) as nat);
        if n - 1 >= order {
            assert(prev.take(n - 1) =~= s.take(n - 1));
            lemma_fixed_pred_local(s, prev, n - 1, order);
            assert(fixed_pred_ok(s, n - 1, order));
        }
        assert(fixed_recon(res, order, n) =~= s.take(n as int));
    } else {
        assert(s.take(0) =~= Seq::<i64>::empty());
    }
}


/// `x` if it is an `i64`.
fn fit_i64(x: i128) -> (r: Option<i64>)
    ensures
        r is Some <==> in_i64(x as int),
        r matches Some(v) ==> v == x,
{
    if x < -0x8000_0000_0000_0000 || x > 0x7FFF_FFFF_FFFF_FFFF {
        None
    } else {
        Some(x as i64)
    }
}

/// The fixed prediction of sample `n`, or none where computing it leaves `i64`.
pub fn predict_fixed_checked(samples: &[i64], n: usize, order: usize) -> (r: Option<i64>)
    requires
        order <= 4,
        order <= n <= samples@.len(),
    ensures
        r is Some <==> fixed_pred_ok(samples@, n as int, order as nat),
        r matches Some(v) ==> v == fixed_pred(samples@, n as int, order as nat),
{
    if order == 0 {
        return Some(0);
    }
    if order == 1 {
        return Some(samples[n - 1]);
    }
    let s1 = samples[n - 1] as i128;
    let s2 = samples[n - 2] as i128;
    if order == 2 {
        let a = match fit_i64(2 * s1) {
            Some(v) => v,
            None => {
                return None;
            },
        };
        return fit_i64(a as i128 - s2);
    }
    let s3 = samples[n - 3] as i128;
    if order == 3 {
        let a = match fit_i64(3 * s1) {
            Some(v) => v,
            None => {
                return None;
            },
        };
        let b = match fit_i64(3 * s2) {
            Some(v) => v,
            None => {
                return None;
            },
        };
        let c = match fit_i64(a as i128 - b as i128) {
            Some(v) => v,
            None => {
                return None;
            },
        };
        return fit_i64(c as i128 + s3);
    }
    let s4 = samples[n - 4] as i128;
    let a = match fit_i64(4 * s1) {
        Some(v) => v,
        None => {
            return None;
        },
    };
    let b = match fit_i64(6 * s2) {
        Some(v) => v,
        None => {
            return None;
        },
    };
    let c = match fit_i64(a as i128 - b as i128) {
        Some(v) => v,
        None => {
            return None;
        },
    };
    let d = match fit_i64(4 * s3) {
        Some(v) => v,
        None => {
            return None;
        },
    };
    let e = match fit_i64(c as i128 + d as i128) {
        Some(v) => v,
        None => {
            return None;
        },
    };
    fit_i64(e as i128 - s4)
}

/// Rebuilds samples from fixed-predictor residuals, or none where that leaves `i64`.
#[verifier::spinoff_prover]
pub fn reconstruct_fixed_checked(residuals: &[i64], order: usize) -> (r: Option<Vec<i64>>)
    requires
        order <= 4,
        order <= residuals@.len(),
    ensures
        r is Some <==> fixed_recon_ok(residuals@, order as nat),
        r matches Some(v) ==> v@ == fixed_recon(residuals@, order as nat, residuals@.len()),
{
    let mut samples: Vec<i64> = Vec::with_capacity(residuals.len());
    let mut i: usize = 0;
    while i < residuals.len()
        invariant
            i <= residuals@.len(),
            order <= 4,
            order <= residuals@.len(),
            samples@ == fixed_recon(residuals@, order as nat, i as nat),
            forall|n: nat|
                order <= n < i ==> #[trigger] fixed_pred_ok(fixed_recon(residuals@, order as nat, n), n as int, order as nat)
                    && in_i64(residuals@[n as int] + fixed_pred(fixed_recon(residuals@, order as nat, n), n as int, order as nat)),
        decreases residuals@.len() - i,
    {
        proof {
            lemma_fixed_recon_len(residuals@, order as nat, i as nat);
        }
        if i < order {
            samples.push(residuals[i]);
        } else {
            let ghost prev = samples@;
            let p = match predict_fixed_checked(samples.as_slice(), i, order) {
                Some(v) => v,
                None => {
                    return None;
                },
            };
            let x = match fit_i64(residuals[i] as i128 + p as i128) {
                Some(v) => v,
                None => {
                    return None;
                },
            };
            proof {
                assert(fixed_pred_ok(fixed_recon(residuals@, order as nat, i as nat), i as int, order as nat));
                assert(in_i64(residuals@[i as int] + fixed_pred(fixed_recon(residuals@, order as nat, i as nat), i as int, order as nat)));
            }
            samples.push(x);
        }
        proof {
            assert(samples@ =~= fixed_recon(residuals@, order as nat, (i + 1) as nat));
            assert forall|n: nat| order <= n < i + 1 implies #[trigger] fixed_pred_ok(
                fixed_recon(residuals@, order as nat, n),
                n as int,
                order as nat,
            ) && in_i64(residuals@[n as int] + fixed_pred(fixed_recon(residuals@, order as nat, n), n as int, order as nat)) by {
                if n < i {
                } else {
                    assert(n == i);
                    assert(i >= order);
                }
            }
        }
        i = i + 1;
    }
    Some(samples)
}

} // verus!
