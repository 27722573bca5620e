use slog_extlog::stats::buckets::{float_bits_le, BucketLimit, BucketMethod, Buckets};

fn bits(v: &[f64]) -> Vec<u64> {
    v.iter().map(|x| x.to_bits()).collect()
}

fn num(x: f64) -> BucketLimit {
    BucketLimit::Num(x.to_bits())
}

#[test]
fn buckets_new_adds_unbounded_limit() {
    let b = Buckets::new(BucketMethod::Freq, bits(&[1.0, 2.0, 3.0]));
    assert_eq!(b.len(), 4);
    assert_eq!(b.method(), BucketMethod::Freq);
    assert_eq!(b.get(0), Some(num(1.0)));
    assert_eq!(b.get(1), Some(num(2.0)));
    assert_eq!(b.get(2), Some(num(3.0)));
    assert_eq!(b.get(3), Some(BucketLimit::Unbounded));
    assert_eq!(b.get(4), None);
}

#[test]
fn buckets_keep_fractional_limits() {
    let b = Buckets::new(BucketMethod::Freq, bits(&[0.5, 1.5]));
    assert_eq!(b.get(0), Some(num(0.5)));
    assert_eq!(b.get(1), Some(num(1.5)));
    assert_eq!(b.assign_buckets(1.0f64.to_bits()), vec![1]);
    assert_eq!(b.assign_buckets(0.5f64.to_bits()), vec![0]);
    assert_eq!(b.assign_buckets(1.6f64.to_bits()), vec![2]);
}

#[test]
fn buckets_with_no_limits_have_only_unbounded() {
    let b = Buckets::new(BucketMethod::CumulFreq, vec![]);
    assert_eq!(b.len(), 1);
    assert_eq!(b.assign_buckets((-1000.0f64).to_bits()), vec![0]);
}

#[test]
fn freq_bucket_of_in_range_value() {
    let b = Buckets::new(BucketMethod::Freq, bits(&[1.0, 2.0, 3.0, 4.0]));
    assert_eq!(b.assign_buckets(2.5f64.to_bits()), vec![2]);
    assert_eq!(b.assign_buckets(1.0f64.to_bits()), vec![0]);
    assert_eq!(b.assign_buckets((-5.0f64).to_bits()), vec![0]);
}

#[test]
fn freq_bucket_of_high_value_is_unbounded() {
    let b = Buckets::new(BucketMethod::Freq, bits(&[1.0, 2.0, 3.0, 4.0]));
    assert_eq!(b.assign_buckets(10.0f64.to_bits()), vec![4]);
    assert_eq!(b.assign_buckets(f64::INFINITY.to_bits()), vec![4]);
}

#[test]
fn nan_value_lands_only_in_unbounded() {
    let f = Buckets::new(BucketMethod::Freq, bits(&[1.0, 2.0]));
    assert_eq!(f.assign_buckets(f64::NAN.to_bits()), vec![2]);
    let c = Buckets::new(BucketMethod::CumulFreq, bits(&[1.0, 2.0]));
    assert_eq!(c.assign_buckets(f64::NAN.to_bits()), vec![2]);
}

#[test]
fn cumul_freq_buckets_of_in_range_value() {
    let b = Buckets::new(BucketMethod::CumulFreq, bits(&[1.0, 2.0, 3.0, 4.0]));
    assert_eq!(b.assign_buckets(2.5f64.to_bits()), vec![2, 3, 4]);
}

#[test]
fn cumul_freq_buckets_of_high_value() {
    let b = Buckets::new(BucketMethod::CumulFreq, bits(&[1.0, 2.0, 3.0, 4.0]));
    assert_eq!(b.assign_buckets(10.0f64.to_bits()), vec![4]);
}

#[test]
fn cumul_freq_buckets_of_low_value_are_all() {
    let b = Buckets::new(BucketMethod::CumulFreq, bits(&[-8.0, 0.0]));
    assert_eq!(b.assign_buckets((-20.0f64).to_bits()), vec![0, 1, 2]);
    assert_eq!(b.assign_buckets(7.4f64.to_bits()), vec![2]);
    // -0.0 lies within a limit of 0.0.
    assert_eq!(b.assign_buckets((-0.0f64).to_bits()), vec![1, 2]);
}

#[test]
fn freq_bucket_with_unsorted_limits_takes_smallest_admitting() {
    let b = Buckets::new(BucketMethod::Freq, bits(&[5.0, -5.0]));
    assert_eq!(b.assign_buckets((-7.0f64).to_bits()), vec![1]);
    assert_eq!(b.assign_buckets(0.0f64.to_bits()), vec![0]);
    assert_eq!(b.assign_buckets(6.0f64.to_bits()), vec![2]);
}

#[test]
fn freq_bucket_with_equal_limits_takes_last() {
    let b = Buckets::new(BucketMethod::Freq, bits(&[3.0, 3.0]));
    assert_eq!(b.assign_buckets(2.0f64.to_bits()), vec![1]);
}

#[test]
fn bucket_limit_le_is_other_at_most_self() {
    assert!(num(2.0).le(&num(1.0)));
    assert!(!num(1.0).le(&num(2.0)));
    assert!(num(2.0).le(&num(2.0)));
    assert!(BucketLimit::Unbounded.le(&num(1.0)));
    assert!(!num(1.0).le(&BucketLimit::Unbounded));
    assert!(BucketLimit::Unbounded.le(&BucketLimit::Unbounded));
    assert!(num(0.0).le(&num(-0.0)));
    assert!(!num(f64::NAN).le(&num(f64::NAN)));
}

#[test]
fn float_bits_order_matches_f64() {
    let vals = [
        f64::NEG_INFINITY, -3.5, -1.0, -0.0, 0.0, 1e-300, 0.5, 1.0, 2.5, 1e300, f64::INFINITY, f64::NAN, -f64::NAN,
    ];
    for a in vals {
        for b in vals {
            assert_eq!(float_bits_le(a.to_bits(), b.to_bits()), a <= b, "{} <= {}", a, b);
        }
    }
}
