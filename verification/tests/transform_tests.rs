use loom_core::transform::wavelet::{forward_cdwt_53, inverse_cdwt_53};
use loom_core::decorrelate::klt::KltTransform;
use loom_core::render::{deinterleave_channels, interleave_channels};

#[test]
fn test_cdwt_53_roundtrip() {
    let original: Vec<i64> = vec![12, 45, 98, 120, 300, 450, 500, 610];
    let (low, high) = forward_cdwt_53(&original);
    let reconstructed = inverse_cdwt_53(&low, &high);
    assert_eq!(original, reconstructed);
}

#[test]
fn cdwt_53_odd_length_roundtrip() {
    let original: Vec<i64> = vec![-5, 7, 0, 13, -200, 41, 9];
    let (low, high) = forward_cdwt_53(&original);
    assert_eq!(low.len() + high.len(), original.len());
    assert_eq!(inverse_cdwt_53(&low, &high), original);
}

#[test]
fn test_klt_covariance_and_transform() {
    let ch0: Vec<i64> = vec![100, 200, 300, 400];
    let ch1: Vec<i64> = vec![90, 210, 290, 410];
    let (out0, out1) = KltTransform::transform_2channel(&ch0, &ch1);
    let (rec0, rec1) = KltTransform::inverse_transform_2channel(&out0, &out1);
    assert_eq!(ch0, rec0);
    assert_eq!(ch1, rec1);
}

#[test]
fn klt_mid_side_values_and_shorter_length() {
    let ch0: Vec<i64> = vec![-3, 7, 1];
    let ch1: Vec<i64> = vec![4, 2];
    let (mid, side) = KltTransform::transform_2channel(&ch0, &ch1);
    assert_eq!(mid, vec![0, 4]);
    assert_eq!(side, vec![-7, 5]);
    let (a, b) = KltTransform::inverse_transform_2channel(&mid, &side);
    assert_eq!(a, vec![-3, 7]);
    assert_eq!(b, vec![4, 2]);
}

#[test]
fn deinterleave_splits_frames() {
    let raw: Vec<i32> = vec![1, -1, 2, -2, 3, -3];
    let chs = deinterleave_channels(&raw, 2, 3);
    assert_eq!(chs, vec![vec![1i64, 2, 3], vec![-1i64, -2, -3]]);
    assert_eq!(interleave_channels(&chs), vec![1i64, -1, 2, -2, 3, -3]);
}
