use metrics64::metrics::histogram::bin_index;
use metrics64::{HistogramBuckets, HistogramInner, RecordStep};

/// `value = frac * 2^exp` with `frac` in `[0.5, 1)`, for positive finite values.
fn frexp(value: f64) -> (f64, i32) {
    let bits = value.to_bits();
    let ee = ((bits >> 52) & 0x7ff) as i32;
    if ee == 0 {
        let (frac, exp) = frexp(value * 2f64.powi(64));
        return (frac, exp - 64);
    }
    let frac = f64::from_bits((bits & 0x800f_ffff_ffff_ffff) | 0x3fe0_0000_0000_0000);
    (frac, ee - 0x3fe)
}

fn bin_of(scale: i32, value: f64) -> i32 {
    let (frac, exp) = frexp(value);
    let log_frac = if scale > 0 {
        (frac.ln() * (std::f64::consts::LOG2_E * 2f64.powi(scale))) as i32
    } else {
        0
    };
    bin_index(scale, exp, frac == 0.5, log_frac)
}

fn record(h: &mut HistogramInner, value: f64) {
    if value == 0.0 {
        h.record_zero();
        return;
    }
    let negative = value < 0.0;
    let abs = value.abs();
    match h.record_bin(negative, bin_of(h.scale(), abs)) {
        RecordStep::Recorded => {}
        RecordStep::Rescaled { scale } => h.record_rescaled(negative, bin_of(scale, abs)),
        RecordStep::ScaleUnderflow => panic!("scale underflow"),
    }
}

fn total(b: &HistogramBuckets) -> u64 {
    b.counts().iter().sum()
}

fn buckets_with(bins: &[(i32, u64)]) -> HistogramBuckets {
    let mut b = HistogramBuckets::new();
    for &(bin, n) in bins {
        for _ in 0..n {
            b.record(bin);
        }
    }
    b
}

#[test]
fn min_max_float() {
    let mut hist = HistogramInner::default();
    record(&mut hist, f64::MIN);
    record(&mut hist, f64::MAX);
    println!("{:?} {:?}", hist.positive_buckets().counts(), hist.negative_buckets().counts());
    assert_eq!(hist.count(), 2);
    assert_eq!(total(hist.positive_buckets()), 1);
    assert_eq!(total(hist.negative_buckets()), 1);
    assert_eq!(hist.positive_buckets().start_bin(), hist.negative_buckets().start_bin());
}

#[test]
fn increments() {
    let mut hist = HistogramInner::default();
    for i in 0..20_000 {
        record(&mut hist, i as f64);
    }
    println!("{} {:?}", hist.scale(), hist.positive_buckets().counts());
    assert_eq!(hist.count(), 20_000);
    assert_eq!(hist.zero_count(), 1);
    assert_eq!(total(hist.positive_buckets()), 19_999);
    assert!(hist.positive_buckets().counts().len() <= 161);
    assert!(hist.scale() < 20);
}

#[test]
fn negative_increments() {
    let mut hist = HistogramInner::default();
    for i in -20_000..0 {
        record(&mut hist, i as f64);
    }
    println!("{} {:?}", hist.scale(), hist.negative_buckets().counts());
    assert_eq!(hist.count(), 20_000);
    assert_eq!(hist.zero_count(), 0);
    assert_eq!(total(hist.negative_buckets()), 20_000);
    assert!(hist.positive_buckets().counts().is_empty());
}

#[test]
fn record_below_the_first_bin_moves_the_counts_up() {
    let mut b = buckets_with(&[(20, 1), (21, 1), (22, 1)]);
    b.record(18);
    assert_eq!(b.start_bin(), 18);
    assert_eq!(b.counts(), &[1, 0, 1, 1, 1]);
}

#[test]
fn record_in_and_above_the_range() {
    let mut b = HistogramBuckets::new();
    b.record(5);
    assert_eq!((b.start_bin(), b.counts()), (5, &[1u64][..]));
    b.record(5);
    assert_eq!(b.counts(), &[2]);
    b.record(8);
    assert_eq!((b.start_bin(), b.counts()), (5, &[2u64, 0, 0, 1][..]));
    b.record(6);
    assert_eq!(b.counts(), &[2, 1, 0, 1]);
    b.record(2);
    assert_eq!((b.start_bin(), b.counts()), (2, &[1u64, 0, 0, 2, 1, 0, 1][..]));
}

#[test]
fn downscale_merges_neighbouring_bins() {
    // Bins -6..=4 with counts 3, 1, 2, ..., 10; at two steps coarser the
    // bins are -2..=1.
    let bins: Vec<(i32, u64)> = vec![(-6, 3), (-5, 1), (-4, 2), (-3, 3), (-2, 4), (-1, 5), (0, 6), (1, 7), (2, 8), (3, 9), (4, 10)];
    let mut b = buckets_with(&bins);
    assert_eq!(b.start_bin(), -6);
    b.downscale(2);
    assert_eq!(b.start_bin(), -2);
    assert_eq!(b.counts(), &[4, 14, 30, 10]);
}

#[test]
fn downscale_of_one_bucket_moves_its_bin() {
    let mut b = buckets_with(&[(-7, 2)]);
    b.downscale(1);
    assert_eq!((b.start_bin(), b.counts()), (-4, &[2u64][..]));
    let mut e = HistogramBuckets::new();
    e.downscale(3);
    assert_eq!((e.start_bin(), e.counts().len()), (0, 0));
    let mut same = buckets_with(&[(3, 1), (4, 1)]);
    same.downscale(0);
    assert_eq!((same.start_bin(), same.counts()), (3, &[1u64, 1][..]));
    let mut far = buckets_with(&[(1000, 1), (1001, 2), (1023, 1)]);
    far.downscale(30);
    assert_eq!((far.start_bin(), far.counts()), (0, &[4u64][..]));
}

#[test]
fn scale_delta_counts_the_halvings() {
    let hist = HistogramInner::new(4, 20);
    assert_eq!(hist.scale_delta(10, 0, 0), 0);
    assert_eq!(hist.scale_delta(3, 0, 1), 0);
    assert_eq!(hist.scale_delta(4, 0, 1), 1);
    assert_eq!(hist.scale_delta(-1, 0, 4), 1);
    assert_eq!(hist.scale_delta(16, 0, 1), 3);
    let tiny = HistogramInner::new(1, 20);
    assert_eq!(tiny.scale_delta(i32::MAX, i32::MIN, 1), 31);
}

#[test]
fn bin_index_follows_the_exponent() {
    // 8 = 0.5 * 2^4 lies in (4, 8], bin 2 at scale 0; 5 = 0.625 * 2^3 too.
    assert_eq!(bin_index(0, 4, true, 0), 2);
    assert_eq!(bin_index(0, 3, false, 0), 2);
    assert_eq!(bin_index(-1, 3, false, 0), 1);
    assert_eq!(bin_index(-2, -3, false, 0), -1);
    assert_eq!(bin_index(3, 3, false, -2), 21);
    assert_eq!(bin_of(0, 1.0), -1);
    assert_eq!(bin_of(0, 1.5), 0);
    assert_eq!(bin_of(1, 1.5), 1);
    assert_eq!(bin_of(1, 1.2), 0);
    assert_eq!(bin_of(1, 1.6), 1);
}

#[test]
fn record_rescales_when_the_range_grows() {
    let mut hist = HistogramInner::new(4, 2);
    assert_eq!(hist.record_bin(false, 0), RecordStep::Recorded);
    assert_eq!(hist.record_bin(false, 3), RecordStep::Recorded);
    assert_eq!(hist.record_bin(false, 4), RecordStep::Rescaled { scale: 1 });
    assert_eq!(hist.scale(), 1);
    assert_eq!(hist.positive_buckets().counts(), &[1, 1]);
    hist.record_rescaled(false, 2);
    assert_eq!(hist.positive_buckets().counts(), &[1, 1, 1]);
    hist.record_zero();
    assert_eq!(hist.record_bin(true, -3), RecordStep::Recorded);
    assert_eq!(hist.count(), 5);
    let snap = hist.get_and_reset();
    assert_eq!((snap.scale, snap.count, snap.zero_count), (1, 5, 1));
    assert_eq!(snap.positive, (0, vec![1, 1, 1]));
    assert_eq!(snap.negative, (-3, vec![1]));
    assert_eq!(hist.count(), 0);
    assert_eq!(hist.scale(), 2);
    assert!(hist.positive_buckets().counts().is_empty());
    assert_eq!(hist.positive_buckets().start_bin(), 0);
}

#[test]
fn record_stops_below_the_coarsest_scale() {
    let mut hist = HistogramInner::new(1, -9);
    assert_eq!(hist.record_bin(false, 0), RecordStep::Recorded);
    assert_eq!(hist.record_bin(false, 1000), RecordStep::ScaleUnderflow);
    assert_eq!(hist.count(), 2);
    assert_eq!(hist.scale(), -9);
    assert_eq!(hist.positive_buckets().counts(), &[1]);
}
