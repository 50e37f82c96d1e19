use macroquad_toolkit::series::{Bucket, Series};

/// An order key for a finite `f32`: keys compare as the values do.
fn key(value: f32) -> u32 {
    let bits = value.to_bits();
    if bits & 0x8000_0000 != 0 {
        !bits
    } else {
        bits | 0x8000_0000
    }
}

/// The `f32` an order key stands for.
fn value(key: u32) -> f32 {
    if key & 0x8000_0000 != 0 {
        f32::from_bits(key & 0x7fff_ffff)
    } else {
        f32::from_bits(!key)
    }
}

/// Push a real-valued sample; a non-finite one is refused, as it would
/// poison the extremes.
fn push(series: &mut Series, sample: f32) {
    if sample.is_finite() {
        series.push(key(sample));
    }
}

fn min(series: &Series) -> Option<f32> {
    series.min().map(value)
}

fn max(series: &Series) -> Option<f32> {
    series.max().map(value)
}

fn last(series: &Series) -> Option<f32> {
    series.last().map(value)
}

fn bucket_values(bucket: &Bucket) -> (f32, f32, f32) {
    (value(bucket.min), value(bucket.max), value(bucket.last))
}

#[test]
fn an_empty_series_reports_nothing_rather_than_zero() {
    let series = Series::new(16);
    assert!(series.is_empty());
    assert_eq!(min(&series), None);
    assert_eq!(max(&series), None);
    assert_eq!(last(&series), None);
}

#[test]
fn memory_is_bounded_however_long_the_session_runs() {
    let mut series = Series::new(64);
    for i in 0..100_000 {
        push(&mut series, i as f32);
    }
    assert!(series.len() <= 66, "{} buckets", series.len());
    assert_eq!(series.count(), 100_000);
}

#[test]
fn extremes_survive_any_amount_of_decimation_exactly() {
    let mut series = Series::new(8);
    let mut lowest = f32::MAX;
    let mut highest = f32::MIN;

    for i in 0..10_000 {
        let sample = if i % 977 == 0 {
            40_000.0 - i as f32
        } else if i % 613 == 0 {
            -9_000.0 - i as f32
        } else {
            (i as f32 * 0.01).sin() * 50.0
        };
        lowest = lowest.min(sample);
        highest = highest.max(sample);
        push(&mut series, sample);
    }

    assert_eq!(min(&series), Some(lowest));
    assert_eq!(max(&series), Some(highest));
}

#[test]
fn a_single_spike_is_never_lost() {
    let mut series = Series::new(4);
    for i in 0..10_000 {
        push(&mut series, if i == 17 { 1_000.0 } else { 0.0 });
    }
    assert_eq!(max(&series), Some(1_000.0));
}

#[test]
fn the_last_value_is_always_the_most_recent_push() {
    let mut series = Series::new(8);
    for i in 0..5_000 {
        push(&mut series, i as f32);
        assert_eq!(last(&series), Some(i as f32), "after {} pushes", i);
    }
}

#[test]
fn the_beginning_of_the_session_is_never_dropped() {
    let mut series = Series::new(8);
    push(&mut series, -500.0);
    for i in 0..5_000 {
        push(&mut series, i as f32);
    }
    assert_eq!(min(&series), Some(-500.0));
    assert_eq!(value(series.buckets()[0].min), -500.0);
}

#[test]
fn resolution_doubles_rather_than_drifting() {
    let mut series = Series::new(8);
    assert_eq!(series.resolution(), 1);
    for _ in 0..5_000 {
        push(&mut series, 1.0);
    }
    assert!(series.resolution().is_power_of_two());
    assert!(series.resolution() > 1);
}

#[test]
fn buckets_stay_ordered_in_time() {
    let mut series = Series::new(8);
    for i in 0..1_000 {
        push(&mut series, i as f32);
    }
    for pair in series.buckets().windows(2) {
        let (min0, max0, last0) = bucket_values(&pair[0]);
        let (min1, max1, last1) = bucket_values(&pair[1]);
        assert!(min1 >= min0);
        assert!(max1 >= max0);
        assert!(last1 > last0);
    }
}

#[test]
fn every_bucket_is_internally_consistent() {
    let mut series = Series::new(16);
    for i in 0..3_000 {
        push(&mut series, ((i * 37) % 500) as f32 - 250.0);
    }
    for bucket in series.buckets() {
        let (lo, hi, last) = bucket_values(bucket);
        assert!(lo <= hi);
        assert!(last >= lo && last <= hi);
    }
}

#[test]
fn an_odd_capacity_is_rounded_so_pairs_always_match() {
    let mut series = Series::new(7);
    for i in 0..1_000 {
        push(&mut series, i as f32);
    }
    assert!(series.len() <= 8);
    let ranges: Vec<f32> = series
        .buckets()
        .iter()
        .map(|bucket| value(bucket.max) - value(bucket.min))
        .collect();
    let widest = ranges.iter().fold(0.0f32, |w, r| w.max(*r));
    for range in &ranges[..ranges.len() - 1] {
        assert!(
            (*range - widest).abs() < 1.5,
            "{} against {}",
            range,
            widest
        );
    }
}

#[test]
fn a_non_finite_sample_cannot_poison_the_extremes() {
    let mut series = Series::new(8);
    push(&mut series, 5.0);
    push(&mut series, f32::NAN);
    push(&mut series, f32::INFINITY);
    push(&mut series, -3.0);

    assert_eq!(min(&series), Some(-3.0));
    assert_eq!(max(&series), Some(5.0));
    assert_eq!(series.count(), 2);
}

#[test]
fn clearing_returns_it_to_new() {
    let mut series = Series::new(8);
    for i in 0..1_000 {
        push(&mut series, i as f32);
    }
    series.clear();
    assert!(series.is_empty());
    assert_eq!(series.resolution(), 1);
    assert_eq!(series.count(), 0);
    assert_eq!(max(&series), None);
}

#[test]
fn a_tiny_capacity_still_behaves() {
    let mut series = Series::new(0);
    for i in 0..500 {
        push(&mut series, i as f32);
    }
    assert!(!series.is_empty());
    assert_eq!(max(&series), Some(499.0));
    assert_eq!(min(&series), Some(0.0));
}

#[test]
fn a_capacity_of_one_is_rounded_up_to_a_pair() {
    let mut series = Series::new(1);
    series.push(0);
    series.push(1);
    assert_eq!(series.len(), 2);
    series.push(2);
    assert_eq!(series.len(), 2);
    assert_eq!(series.resolution(), 2);
    for i in 3..100u32 {
        series.push(i);
        assert!(series.len() <= 2);
    }
    assert_eq!(series.min(), Some(0));
    assert_eq!(series.max(), Some(99));
    assert_eq!(series.last(), Some(99));
}

#[test]
fn keys_order_like_the_values_they_stand_for() {
    let samples = [-1.0e30f32, -2.5, -0.5, 0.0, 0.25, 3.0, 7.0e20];
    for pair in samples.windows(2) {
        assert!(key(pair[0]) < key(pair[1]));
        assert_eq!(value(key(pair[0])), pair[0]);
    }
}
