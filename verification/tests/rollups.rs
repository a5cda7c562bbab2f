use ftwdb::aggregate::{CounterAggregate, CounterStep, GaugeAggregate, GaugeNumbers};
use ftwdb::calendar_rollup::{
    calendar_bucket_bounds, calendar_step, edges_or_fault, CalendarGaugeRollup, CalendarStep, FirstDay,
};
use ftwdb::error::Error;
use ftwdb::model::{CalendarUnit, FloatBits, Point, RollupResolution};
use ftwdb::rollup::{bucket_start, BucketNumbers, BucketParts, FixedGaugeRollup, GaugeBucket, Sample};
use jiff::civil::date;

const SECOND: i64 = 1_000_000;

fn bits(value: f64) -> FloatBits {
    FloatBits(value.to_bits())
}

fn number(value: FloatBits) -> f64 {
    f64::from_bits(value.0)
}

fn point(time: i64, value: f64) -> Point {
    Point::actual(1, time, bits(value))
}

fn sample(time: i64, value: f64) -> Sample {
    Sample::new(time, bits(value))
}

/// The numbers of a bucket's samples and holds.
fn closed(parts: &BucketParts) -> GaugeBucket {
    let values: Vec<f64> = parts
        .samples
        .iter()
        .map(|sample| number(sample.value))
        .chain(parts.holds.iter().map(|hold| number(hold.value)))
        .collect();
    GaugeBucket::from_parts(
        parts,
        BucketNumbers {
            sum: bits(parts.samples.iter().map(|sample| number(sample.value)).sum()),
            min: values.iter().copied().reduce(f64::min).map(bits),
            max: values.iter().copied().reduce(f64::max).map(bits),
            integral_value_micros: bits(
                parts.holds.iter().map(|hold| number(hold.value) * hold.micros as f64).sum(),
            ),
        },
    )
}

fn merge(left: GaugeBucket, right: GaugeBucket) -> GaugeBucket {
    let either = |a: Option<FloatBits>, b: Option<FloatBits>, pick: fn(f64, f64) -> f64| match (a, b)
    {
        (Some(a), Some(b)) => Some(bits(pick(number(a), number(b)))),
        (one, None) => one,
        (None, other) => other,
    };
    left.merge_exact(
        right,
        BucketNumbers {
            sum: bits(number(left.sum) + number(right.sum)),
            min: either(left.min, right.min, f64::min),
            max: either(left.max, right.max, f64::max),
            integral_value_micros: bits(
                number(left.integral_value_micros) + number(right.integral_value_micros),
            ),
        },
    )
}

fn time_weighted_mean(bucket: GaugeBucket) -> Option<f64> {
    (bucket.covered_micros > 0)
        .then_some(number(bucket.integral_value_micros) / bucket.covered_micros as f64)
}

fn pushed(aggregate: &mut GaugeAggregate, sample: Sample, max_gap: i64) {
    let bridge = aggregate.bridge_to(sample.timestamp, max_gap);
    let value = number(sample.value);
    let numbers = GaugeNumbers {
        sum: bits(number(aggregate.sum) + value),
        min: bits(number(aggregate.min).min(value)),
        max: bits(number(aggregate.max).max(value)),
        integral_value_micros: bits(
            number(aggregate.integral_value_micros)
                + number(aggregate.last.value) * bridge as f64,
        ),
    };
    aggregate.push(sample, max_gap, numbers).unwrap();
}

fn counted(aggregate: &mut CounterAggregate, sample: Sample) {
    let previous = number(aggregate.last.value);
    let next = number(sample.value);
    let (delta, reset) =
        if next >= previous { (next - previous, false) } else { (next.max(0.0), true) };
    let step = CounterStep { positive_delta: bits(number(aggregate.positive_delta) + delta), reset };
    aggregate.push(sample, step).unwrap();
}

#[test]
fn clips_integrals_at_bucket_edges() {
    let points = [point(0, 2.0), point(7 * SECOND, 4.0), point(12 * SECOND, 8.0)];
    let rollup = FixedGaugeRollup::build(&points, 5 * SECOND, 60 * SECOND).unwrap();
    let buckets: Vec<_> = rollup.buckets().iter().map(closed).collect();

    assert_eq!(buckets.len(), 3);
    assert_eq!(buckets[0].covered_micros, 5 * SECOND);
    assert_eq!(time_weighted_mean(buckets[0]), Some(2.0));
    assert_eq!(buckets[1].covered_micros, 5 * SECOND);
    assert_eq!(time_weighted_mean(buckets[1]), Some(3.2));
    assert_eq!(buckets[2].covered_micros, 2 * SECOND);
    assert_eq!(time_weighted_mean(buckets[2]), Some(4.0));
}

#[test]
fn negative_timestamps_use_euclidean_bucket_alignment() {
    let points = [point(-SECOND, 1.0)];
    let rollup = FixedGaugeRollup::build(&points, 5 * SECOND, 5 * SECOND).unwrap();
    assert_eq!(rollup.buckets()[0].start, -5 * SECOND);
    assert_eq!(bucket_start(-SECOND, 5 * SECOND), -5 * SECOND);
}

#[test]
fn exact_merge_preserves_closed_integrals_without_bridging_gaps() {
    let points = [point(0, 2.0), point(5 * SECOND, 4.0), point(10 * SECOND, 8.0)];
    let rollup = FixedGaugeRollup::build(&points, 5 * SECOND, 5 * SECOND).unwrap();
    let buckets: Vec<_> = rollup.buckets().iter().map(closed).collect();
    let merged = merge(buckets[0], buckets[1]);
    assert_eq!(merged.start, 0);
    assert_eq!(merged.end, 10 * SECOND);
    assert_eq!(merged.covered_micros, 10 * SECOND);
    assert_eq!(merged.count, 2);
    assert_eq!(merged.first, Some(sample(0, 2.0)));
    assert_eq!(merged.last, Some(sample(5 * SECOND, 4.0)));
    assert_eq!(time_weighted_mean(merged), Some(3.0));
}

#[test]
fn halves_merge_into_the_bucket_of_twice_their_length() {
    let points = [point(1, 2.0), point(7, 4.0), point(12, 8.0), point(40, 1.0), point(47, 3.0)];
    let fine = FixedGaugeRollup::build(&points, 5, 9).unwrap();
    let coarse = FixedGaugeRollup::build(&points, 10, 9).unwrap();
    let halves: Vec<_> = fine.buckets().iter().map(closed).collect();
    let whole: Vec<_> = coarse.buckets().iter().map(closed).collect();
    assert_eq!(whole.iter().map(|bucket| bucket.start).collect::<Vec<_>>(), vec![0, 10, 40]);
    for bucket in whole {
        let half = |start: i64| halves.iter().copied().find(|half| half.start == start);
        match (half(bucket.start), half(bucket.start + 5)) {
            (Some(left), Some(right)) => assert_eq!(merge(left, right), bucket),
            (Some(left), None) => assert_eq!((left.count, left.first), (bucket.count, bucket.first)),
            other => panic!("no half of {}: {other:?}", bucket.start),
        }
    }
}

#[test]
fn fixed_rollups_keep_all_points_and_all_time() {
    let points = [point(-3, 2.0), point(7, 4.0), point(12, 8.0), point(40, 1.0), point(47, 3.0)];
    let rollup = FixedGaugeRollup::build(&points, 5, 10).unwrap();
    let held: i64 =
        rollup.buckets().iter().flat_map(|bucket| &bucket.holds).map(|hold| hold.micros).sum();
    assert_eq!(held, 10 + 5 + 7);
    let samples: usize = rollup.buckets().iter().map(|bucket| bucket.samples.len()).sum();
    assert_eq!(samples, 5);
}

#[test]
fn stockholm_calendar_days_follow_dst_not_24_hour_assumptions() {
    let spring_noon = date(2026, 3, 29)
        .at(12, 0, 0, 0)
        .in_tz("Europe/Stockholm")
        .unwrap()
        .timestamp()
        .as_microsecond();
    let fall_noon = date(2026, 10, 25)
        .at(12, 0, 0, 0)
        .in_tz("Europe/Stockholm")
        .unwrap()
        .timestamp()
        .as_microsecond();
    let spring =
        calendar_bucket_bounds(spring_noon, CalendarUnit::Day, "Europe/Stockholm").unwrap();
    let fall = calendar_bucket_bounds(fall_noon, CalendarUnit::Day, "Europe/Stockholm").unwrap();

    assert_eq!(spring.1 - spring.0, 23 * 3_600 * SECOND);
    assert_eq!(fall.1 - fall.0, 25 * 3_600 * SECOND);
}

#[test]
fn calendar_energy_uses_real_bucket_duration() {
    let start = date(2026, 3, 29)
        .at(0, 0, 0, 0)
        .in_tz("Europe/Stockholm")
        .unwrap()
        .timestamp()
        .as_microsecond();
    let end = date(2026, 3, 30)
        .at(0, 0, 0, 0)
        .in_tz("Europe/Stockholm")
        .unwrap()
        .timestamp()
        .as_microsecond();
    let points = [point(start, 1_000.0), point(end, 1_000.0)];
    let rollup = CalendarGaugeRollup::build(
        &points,
        CalendarUnit::Day,
        "Europe/Stockholm",
        26 * 3_600 * SECOND,
    )
    .unwrap();
    let first = closed(&rollup.buckets()[0]);

    assert_eq!(first.covered_micros, 23 * 3_600 * SECOND);
    assert_eq!(number(first.integral_value_micros) / 3_600_000_000.0, 23_000.0);
    assert_eq!(
        rollup.resolution(),
        &RollupResolution::Calendar {
            unit: CalendarUnit::Day,
            iana_timezone: "Europe/Stockholm".to_owned(),
        }
    );
    assert_eq!(rollup.range(start, end), vec![0]);
    assert_eq!(rollup.range(start, end + 1), vec![0, 1]);
}

#[test]
fn calendar_months_and_years_begin_on_their_first_day() {
    let micros = date(2024, 2, 15).at(9, 30, 0, 0).in_tz("UTC").unwrap().timestamp().as_microsecond();
    let start_of = |year, month| {
        date(year, month, 1).at(0, 0, 0, 0).in_tz("UTC").unwrap().timestamp().as_microsecond()
    };
    assert_eq!(
        calendar_bucket_bounds(micros, CalendarUnit::Month, "UTC"),
        Ok((start_of(2024, 2), start_of(2024, 3)))
    );
    assert_eq!(
        calendar_bucket_bounds(micros, CalendarUnit::Year, "UTC"),
        Ok((start_of(2024, 1), start_of(2025, 1)))
    );
}

#[test]
fn values_are_clipped_at_whatever_buckets_the_calendar_gives() {
    let points = [point(0, 2.0), point(7, 4.0), point(12, 8.0)];
    let bounds = vec![(0, 5), (5, 9), (9, 20)];
    let found = vec![(0, 5), (5, 9), (5, 9), (9, 20)];
    let rollup =
        CalendarGaugeRollup::from_bounds(&points, CalendarUnit::Day, "UTC", 10, &bounds, &found)
            .unwrap();
    let held: Vec<(i64, i64, i64)> = rollup
        .buckets()
        .iter()
        .map(|bucket| {
            let micros = bucket.holds.iter().map(|hold| hold.micros).sum();
            (bucket.start, bucket.end, micros)
        })
        .collect();
    assert_eq!(held, vec![(0, 5, 5), (5, 9, 4), (9, 20, 3)]);
    assert_eq!(held.iter().map(|(_, _, micros)| micros).sum::<i64>(), 12);
    assert_eq!(rollup.buckets()[1].holds[0].value, bits(2.0));
    assert_eq!(rollup.buckets()[1].holds[1].value, bits(4.0));

    let shifted = vec![(0, 5), (5, 9), (13, 20)];
    assert!(CalendarGaugeRollup::from_bounds(
        &points,
        CalendarUnit::Day,
        "UTC",
        10,
        &shifted,
        &found
    )
    .is_none());
    let few = vec![(0, 5)];
    for (bounds, found) in [(&bounds, &few), (&few, &found)] {
        assert!(CalendarGaugeRollup::from_bounds(
            &points,
            CalendarUnit::Day,
            "UTC",
            10,
            bounds,
            found
        )
        .is_none());
    }
}

#[test]
fn calendar_rollups_refuse_bad_policies() {
    assert_eq!(
        CalendarGaugeRollup::build(&[], CalendarUnit::Day, "UTC", -1).unwrap_err(),
        Error::InvalidConfig("calendar rollup maximum gap must not be negative")
    );
    assert!(matches!(
        CalendarGaugeRollup::build(&[], CalendarUnit::Day, "Nowhere/Atall", 1),
        Err(Error::InvalidModel(reason)) if reason.starts_with("invalid calendar rollup: ")
    ));
    assert!(CalendarGaugeRollup::build(&[], CalendarUnit::Year, "UTC", 1)
        .unwrap()
        .buckets()
        .is_empty());
}

#[test]
fn fixed_rollups_refuse_bad_arguments() {
    assert_eq!(
        FixedGaugeRollup::build(&[], 0, 1).unwrap_err(),
        Error::InvalidArgument("resolution must be positive")
    );
    assert_eq!(
        FixedGaugeRollup::build(&[], 1, -1).unwrap_err(),
        Error::InvalidArgument("maximum gap must not be negative")
    );
}

#[test]
fn ranges_of_a_fixed_rollup_are_half_open() {
    let points = [point(0, 2.0), point(5 * SECOND, 4.0), point(10 * SECOND, 8.0)];
    let rollup = FixedGaugeRollup::build(&points, 5 * SECOND, SECOND).unwrap();
    assert_eq!(rollup.resolution_micros(), 5 * SECOND);
    let starts: Vec<i64> =
        rollup.range(5 * SECOND, 10 * SECOND).iter().map(|bucket| bucket.start).collect();
    assert_eq!(starts, vec![5 * SECOND]);
    assert!(rollup.buckets().iter().all(|bucket| bucket.holds.is_empty()));
}

#[test]
fn merged_gauge_matches_direct_aggregation() {
    let max_gap = 10_000_000;
    let samples =
        [sample(0, 1.0), sample(1_000_000, 3.0), sample(3_000_000, 5.0), sample(6_000_000, 2.0)];

    let mut direct = GaugeAggregate::from_sample(samples[0]);
    for sample in &samples[1..] {
        pushed(&mut direct, *sample, max_gap);
    }

    let mut left = GaugeAggregate::from_sample(samples[0]);
    pushed(&mut left, samples[1], max_gap);
    let mut right = GaugeAggregate::from_sample(samples[2]);
    pushed(&mut right, samples[3], max_gap);

    let bridge = left.bridge_to(right.first.timestamp, max_gap);
    let numbers = GaugeNumbers {
        sum: bits(number(left.sum) + number(right.sum)),
        min: bits(number(left.min).min(number(right.min))),
        max: bits(number(left.max).max(number(right.max))),
        integral_value_micros: bits(
            number(left.integral_value_micros)
                + number(left.last.value) * bridge as f64
                + number(right.integral_value_micros),
        ),
    };
    assert_eq!(Ok(direct), left.merge(right, max_gap, numbers));
    assert_eq!(
        number(direct.integral_value_micros) / direct.covered_micros as f64,
        22.0 / 6.0
    );
}

#[test]
fn aggregates_merge_whatever_they_cover() {
    let numbers = GaugeNumbers {
        sum: bits(3.0),
        min: bits(1.0),
        max: bits(2.0),
        integral_value_micros: bits(4.0),
    };
    let left = GaugeAggregate { covered_micros: -9, ..GaugeAggregate::from_sample(sample(0, 1.0)) };
    let right = GaugeAggregate::from_sample(sample(4, 2.0));
    assert_eq!(left.merge(right, 10, numbers).unwrap().covered_micros, -5);
}

#[test]
fn long_gaps_are_not_treated_as_observed_energy() {
    let mut aggregate = GaugeAggregate::from_sample(sample(0, 2.0));
    pushed(&mut aggregate, sample(60_000_000, 2.0), 5_000_000);
    assert_eq!(aggregate.covered_micros, 0);
    assert_eq!(aggregate.integral_value_micros, bits(0.0));
}

#[test]
fn counter_resets_are_counted_and_do_not_go_negative() {
    let mut aggregate = CounterAggregate::from_sample(sample(0, 100.0));
    counted(&mut aggregate, sample(1, 105.0));
    counted(&mut aggregate, sample(2, 2.0));
    counted(&mut aggregate, sample(3, 7.0));
    assert_eq!(aggregate.positive_delta, bits(12.0));
    assert_eq!(aggregate.resets, 1);
    assert_eq!(aggregate.count, 4);
}

#[test]
fn aggregates_refuse_samples_out_of_order() {
    let mut gauge = GaugeAggregate::from_sample(sample(10, 2.0));
    let numbers = GaugeNumbers {
        sum: bits(4.0),
        min: bits(2.0),
        max: bits(2.0),
        integral_value_micros: bits(0.0),
    };
    assert_eq!(
        gauge.push(sample(9, 2.0), 5, numbers),
        Err(Error::InvalidArgument("samples must be time ordered"))
    );
    assert_eq!(gauge, GaugeAggregate::from_sample(sample(10, 2.0)));
    let earlier = GaugeAggregate::from_sample(sample(9, 2.0));
    assert_eq!(
        gauge.merge(earlier, 5, numbers),
        Err(Error::InvalidArgument("aggregate states must be time ordered"))
    );
    let mut counter = CounterAggregate::from_sample(sample(10, 2.0));
    let step = CounterStep { positive_delta: bits(0.0), reset: false };
    assert_eq!(
        counter.push(sample(9, 2.0), step),
        Err(Error::InvalidArgument("samples must be time ordered"))
    );
    assert_eq!(
        counter.merge(CounterAggregate::from_sample(sample(9, 2.0)), step),
        Err(Error::InvalidArgument("aggregate states must be time ordered"))
    );
}

#[test]
fn buckets_end_one_unit_after_their_first_day() {
    assert_eq!(
        calendar_step(CalendarUnit::Day),
        CalendarStep { first: FirstDay::Same, days: 1, months: 0, years: 0 }
    );
    assert_eq!(
        calendar_step(CalendarUnit::Month),
        CalendarStep { first: FirstDay::OfMonth, days: 0, months: 1, years: 0 }
    );
    assert_eq!(
        calendar_step(CalendarUnit::Year),
        CalendarStep { first: FirstDay::OfYear, days: 0, months: 0, years: 1 }
    );
    assert_eq!(edges_or_fault(5, Ok((3, 9))).unwrap(), (3, 9));
    for outside in [2, 9] {
        assert_eq!(
            edges_or_fault(outside, Ok((3, 9))).unwrap_err().message(),
            "invalid energy model: invalid calendar rollup: the bucket does not hold its time"
        );
    }
    assert_eq!(
        edges_or_fault(5, Err("no such zone".to_owned())).unwrap_err().message(),
        "invalid energy model: invalid calendar rollup: no such zone"
    );
}

#[test]
fn merged_counter_matches_direct_aggregation() {
    let mut direct = CounterAggregate::from_sample(sample(0, 100.0));
    counted(&mut direct, sample(1, 105.0));
    counted(&mut direct, sample(2, 2.0));
    counted(&mut direct, sample(3, 7.0));
    let mut left = CounterAggregate::from_sample(sample(0, 100.0));
    counted(&mut left, sample(1, 105.0));
    let mut right = CounterAggregate::from_sample(sample(2, 2.0));
    counted(&mut right, sample(3, 7.0));
    let step = CounterStep { positive_delta: bits(12.0), reset: true };
    assert_eq!(left.merge(right, step).unwrap(), direct);
}
