use loom_core::predict::fixed::{compute_fixed_residuals, reconstruct_fixed};

#[test]
fn test_fixed_predictors_roundtrip() {
    let samples: Vec<i64> = vec![10, 25, 42, 65, 90, 120, 155, 195];
    for order in 0..=4 {
        let res = compute_fixed_residuals(&samples, order);
        let mut reconstructed = vec![0i64; samples.len()];
        reconstruct_fixed(&res, &mut reconstructed, order);
        assert_eq!(samples, reconstructed);
    }
}

#[test]
fn fixed_residuals_order_two() {
    let samples: Vec<i64> = vec![10, 25, 42, 65];
    let res = compute_fixed_residuals(&samples, 2);
    // Warm-up samples as they are, then x[n] - (2 x[n-1] - x[n-2]).
    assert_eq!(res, vec![10, 25, 42 - (50 - 10), 65 - (84 - 25)]);
}
