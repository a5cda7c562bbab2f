//! Mergeable aggregate states used by the rollup pyramid.
//!
//! Times and counts are kept here. The numbers that come out of floating-point
//! arithmetic are handed in by the caller, who computes them from the same states.
use crate::error::Error;
use crate::model::FloatBits;
use crate::rollup::Sample;
use vstd::prelude::*;

verus! {

/// Mergeable state for gauge-like values such as power or temperature.
///
/// `sum / count` is the sample mean. `integral_value_micros / covered_micros` is the
/// time-weighted mean where each value holds until the next. Gaps longer than the
/// caller's maximum are not counted as covered.
#[derive(Clone, Copy, Debug, PartialEq)]
pub struct GaugeAggregate {
    pub count: u64,
    pub sum: FloatBits,
    pub min: FloatBits,
    pub max: FloatBits,
    pub first: Sample,
    pub last: Sample,
    pub integral_value_micros: FloatBits,
    pub covered_micros: i64,
}

/// The parts of a gauge aggregate that are computed with floating point.
#[derive(Clone, Copy, Debug, PartialEq)]
pub struct GaugeNumbers {
    pub sum: FloatBits,
    pub min: FloatBits,
    pub max: FloatBits,
    pub integral_value_micros: FloatBits,
}

/// How much of the time between two samples is covered: all of it, or nothing where the
/// gap is too long.
pub open spec fn bridged(from: int, to: int, max_gap: int) -> int {
    if to - from <= max_gap {
        to - from
    } else {
        0
    }
}

/// The state that a sample leaves behind.
pub open spec fn pushed_gauge(
    a: GaugeAggregate,
    sample: Sample,
    max_gap: int,
    numbers: GaugeNumbers,
) -> GaugeAggregate {
    GaugeAggregate {
        count: (a.count + 1) as u64,
        sum: numbers.sum,
        min: numbers.min,
        max: numbers.max,
        first: a.first,
        last: sample,
        integral_value_micros: numbers.integral_value_micros,
        covered_micros: (a.covered_micros + bridged(
            a.last.timestamp as int,
            sample.timestamp as int,
            max_gap,
        )) as i64,
    }
}

/// The state of two adjacent states.
pub open spec fn merged_gauge(
    a: GaugeAggregate,
    next: GaugeAggregate,
    max_gap: int,
    numbers: GaugeNumbers,
) -> GaugeAggregate {
    GaugeAggregate {
        count: (a.count + next.count) as u64,
        sum: numbers.sum,
        min: numbers.min,
        max: numbers.max,
        first: a.first,
        last: next.last,
        integral_value_micros: numbers.integral_value_micros,
        covered_micros: (a.covered_micros + bridged(
            a.last.timestamp as int,
            next.first.timestamp as int,
            max_gap,
        ) + next.covered_micros) as i64,
    }
}

impl GaugeAggregate {
    pub fn from_sample(sample: Sample) -> (aggregate: Self)
        ensures
            aggregate == (GaugeAggregate {
                count: 1,
                sum: sample.value,
                min: sample.value,
                max: sample.value,
                first: sample,
                last: sample,
                integral_value_micros: FloatBits(0),
                covered_micros: 0,
            }),
    {
        GaugeAggregate {
            count: 1,
            sum: sample.value,
            min: sample.value,
            max: sample.value,
            first: sample,
            last: sample,
            integral_value_micros: FloatBits(0),
            covered_micros: 0,
        }
    }

    /// How much of the time up to `timestamp` the last value covers.
    pub fn bridge_to(&self, timestamp: i64, max_gap_micros: i64) -> (micros: i64)
        requires
            0 <= timestamp - self.last.timestamp <= i64::MAX,
        ensures
            micros == bridged(
                self.last.timestamp as int,
                timestamp as int,
                max_gap_micros as int,
            ),
    {
        let gap: i64 = timestamp - self.last.timestamp;
        if gap <= max_gap_micros {
            gap
        } else {
            0
        }
    }

    /// Adds a sample that is not earlier than the last, around the numbers then. One
    /// that is earlier is refused.
    pub fn push(&mut self, sample: Sample, max_gap_micros: i64, numbers: GaugeNumbers) -> (outcome:
        Result<(), Error>)
        requires
            sample.timestamp >= old(self).last.timestamp ==> {
                &&& old(self).count < u64::MAX
                &&& sample.timestamp - old(self).last.timestamp <= i64::MAX
                &&& i64::MIN <= old(self).covered_micros + bridged(
                    old(self).last.timestamp as int,
                    sample.timestamp as int,
                    max_gap_micros as int,
                ) <= i64::MAX
            },
        ensures
            if sample.timestamp < old(self).last.timestamp {
                &&& outcome == Err::<(), _>(Error::InvalidArgument("samples must be time ordered"))
                &&& *final(self) == *old(self)
            } else {
                &&& outcome is Ok
                &&& *final(self) == pushed_gauge(
                    *old(self),
                    sample,
                    max_gap_micros as int,
                    numbers,
                )
            },
    {
        if sample.timestamp < self.last.timestamp {
            return Err(Error::InvalidArgument("samples must be time ordered"));
        }
        let gap: i64 = self.bridge_to(sample.timestamp, max_gap_micros);
        self.covered_micros = self.covered_micros + gap;
        self.integral_value_micros = numbers.integral_value_micros;
        self.count = self.count + 1;
        self.sum = numbers.sum;
        self.min = numbers.min;
        self.max = numbers.max;
        self.last = sample;
        Ok(())
    }

    /// Combines adjacent aggregate states without the points behind them, around the
    /// numbers of both. A state that starts before the other ends is refused.
    pub fn merge(self, next: Self, max_gap_micros: i64, numbers: GaugeNumbers) -> (outcome: Result<
        Self,
        Error,
    >)
        requires
            next.first.timestamp >= self.last.timestamp ==> {
                &&& self.count + next.count <= u64::MAX
                &&& next.first.timestamp - self.last.timestamp <= i64::MAX
                &&& i64::MIN <= self.covered_micros + bridged(
                    self.last.timestamp as int,
                    next.first.timestamp as int,
                    max_gap_micros as int,
                ) <= i64::MAX
                &&& i64::MIN <= self.covered_micros + bridged(
                    self.last.timestamp as int,
                    next.first.timestamp as int,
                    max_gap_micros as int,
                ) + next.covered_micros <= i64::MAX
            },
        ensures
            outcome == if next.first.timestamp < self.last.timestamp {
                Err(Error::InvalidArgument("aggregate states must be time ordered"))
            } else {
                Ok(merged_gauge(self, next, max_gap_micros as int, numbers))
            },
    {
        if next.first.timestamp < self.last.timestamp {
            return Err(Error::InvalidArgument("aggregate states must be time ordered"));
        }
        let bridge: i64 = self.bridge_to(next.first.timestamp, max_gap_micros);
        Ok(
            GaugeAggregate {
                count: self.count + next.count,
                sum: numbers.sum,
                min: numbers.min,
                max: numbers.max,
                first: self.first,
                last: next.last,
                integral_value_micros: numbers.integral_value_micros,
                covered_micros: self.covered_micros + bridge + next.covered_micros,
            },
        )
    }
}

/// Mergeable state for monotonically increasing meter counters.
#[derive(Clone, Copy, Debug, PartialEq)]
pub struct CounterAggregate {
    pub count: u64,
    pub first: Sample,
    pub last: Sample,
    pub positive_delta: FloatBits,
    pub resets: u64,
}

/// The step of a counter from one reading to the next, as it was computed: the amounts
/// then, and whether the counter was reset.
#[derive(Clone, Copy, Debug, PartialEq)]
pub struct CounterStep {
    pub positive_delta: FloatBits,
    pub reset: bool,
}

/// One for a reset, and nothing otherwise.
pub open spec fn reset_count(reset: bool) -> int {
    if reset {
        1
    } else {
        0
    }
}

/// The state that a reading leaves behind.
pub open spec fn pushed_counter(
    a: CounterAggregate,
    sample: Sample,
    step: CounterStep,
) -> CounterAggregate {
    CounterAggregate {
        count: (a.count + 1) as u64,
        first: a.first,
        last: sample,
        positive_delta: step.positive_delta,
        resets: (a.resets + reset_count(step.reset)) as u64,
    }
}

/// The state of two adjacent states, with the step between them.
pub open spec fn merged_counter(
    a: CounterAggregate,
    next: CounterAggregate,
    step: CounterStep,
) -> CounterAggregate {
    CounterAggregate {
        count: (a.count + next.count) as u64,
        first: a.first,
        last: next.last,
        positive_delta: step.positive_delta,
        resets: (a.resets + reset_count(step.reset) + next.resets) as u64,
    }
}

impl CounterAggregate {
    pub fn from_sample(sample: Sample) -> (aggregate: Self)
        ensures
            aggregate == (CounterAggregate {
                count: 1,
                first: sample,
                last: sample,
                positive_delta: FloatBits(0),
                resets: 0,
            }),
    {
        CounterAggregate {
            count: 1,
            first: sample,
            last: sample,
            positive_delta: FloatBits(0),
            resets: 0,
        }
    }

    /// Adds a reading that is not earlier than the last. One that is earlier is refused.
    pub fn push(&mut self, sample: Sample, step: CounterStep) -> (outcome: Result<(), Error>)
        requires
            sample.timestamp >= old(self).last.timestamp ==> old(self).count < u64::MAX && old(
                self,
            ).resets < u64::MAX,
        ensures
            if sample.timestamp < old(self).last.timestamp {
                &&& outcome == Err::<(), _>(Error::InvalidArgument("samples must be time ordered"))
                &&& *final(self) == *old(self)
            } else {
                &&& outcome is Ok
                &&& *final(self) == pushed_counter(*old(self), sample, step)
            },
    {
        if sample.timestamp < self.last.timestamp {
            return Err(Error::InvalidArgument("samples must be time ordered"));
        }
        self.positive_delta = step.positive_delta;
        if step.reset {
            self.resets = self.resets + 1;
        }
        self.count = self.count + 1;
        self.last = sample;
        Ok(())
    }

    /// Combines adjacent counter states, with the step between them. A state that starts
    /// before the other ends is refused.
    pub fn merge(self, next: Self, step: CounterStep) -> (outcome: Result<Self, Error>)
        requires
            next.first.timestamp >= self.last.timestamp ==> self.count + next.count <= u64::MAX
                && self.resets + next.resets + 1 <= u64::MAX,
        ensures
            outcome == if next.first.timestamp < self.last.timestamp {
                Err(Error::InvalidArgument("aggregate states must be time ordered"))
            } else {
                Ok(merged_counter(self, next, step))
            },
    {
        if next.first.timestamp < self.last.timestamp {
            return Err(Error::InvalidArgument("aggregate states must be time ordered"));
        }
        let bridge: u64 = if step.reset {
            1
        } else {
            0
        };
        Ok(
            CounterAggregate {
                count: self.count + next.count,
                first: self.first,
                last: next.last,
                positive_delta: step.positive_delta,
                resets: self.resets + bridge + next.resets,
            },
        )
    }
}

// Laws.

/// How much time samples cover that are pushed one after the other.
pub open spec fn covered_by(samples: Seq<Sample>, max_gap: int) -> int
    decreases samples.len(),
{
    if samples.len() <= 1 {
        0
    } else {
        covered_by(samples.drop_last(), max_gap) + bridged(
            samples[samples.len() - 2].timestamp as int,
            samples.last().timestamp as int,
            max_gap,
        )
    }
}

/// Whether a state is that of samples pushed one after the other: their count, the first
/// and the last of them, and the time they cover.
pub open spec fn gauge_of(a: GaugeAggregate, samples: Seq<Sample>, max_gap: int) -> bool {
    &&& samples.len() > 0
    &&& a.count == samples.len()
    &&& a.first == samples[0]
    &&& a.last == samples.last()
    &&& a.covered_micros == covered_by(samples, max_gap)
}

/// A state stays that of its samples when one more is pushed.
pub proof fn pushed_samples_are_counted(
    a: GaugeAggregate,
    samples: Seq<Sample>,
    sample: Sample,
    max_gap: int,
    numbers: GaugeNumbers,
)
    requires
        gauge_of(a, samples, max_gap),
        a.count < u64::MAX,
        i64::MIN <= a.covered_micros + bridged(
            a.last.timestamp as int,
            sample.timestamp as int,
            max_gap,
        ) <= i64::MAX,
    ensures
        gauge_of(pushed_gauge(a, sample, max_gap, numbers), samples.push(sample), max_gap),
{
    assert(samples.push(sample).drop_last() =~= samples);
}

/// What samples cover together: what the earlier cover, the bridge, and what the later
/// cover.
proof fn lemma_covered_by_both(earlier: Seq<Sample>, later: Seq<Sample>, max_gap: int)
    requires
        earlier.len() > 0,
        later.len() > 0,
    ensures
        covered_by(earlier + later, max_gap) == covered_by(earlier, max_gap) + bridged(
            earlier.last().timestamp as int,
            later[0].timestamp as int,
            max_gap,
        ) + covered_by(later, max_gap),
    decreases later.len(),
{
    let all = earlier + later;
    if later.len() == 1 {
        assert(all.drop_last() =~= earlier);
        assert(all[all.len() - 2] == earlier.last());
    } else {
        lemma_covered_by_both(earlier, later.drop_last(), max_gap);
        assert(all.drop_last() =~= earlier + later.drop_last());
        assert(all[all.len() - 2] == later[later.len() - 2]);
    }
}

/// Two states merge into the state of all their samples, as if the later ones had been
/// pushed behind the earlier.
pub proof fn merged_states_match_direct_ones(
    a: GaugeAggregate,
    earlier: Seq<Sample>,
    next: GaugeAggregate,
    later: Seq<Sample>,
    max_gap: int,
    numbers: GaugeNumbers,
)
    requires
        gauge_of(a, earlier, max_gap),
        gauge_of(next, later, max_gap),
        a.count + next.count <= u64::MAX,
        i64::MIN <= a.covered_micros + bridged(
            a.last.timestamp as int,
            next.first.timestamp as int,
            max_gap,
        ) + next.covered_micros <= i64::MAX,
    ensures
        gauge_of(merged_gauge(a, next, max_gap, numbers), earlier + later, max_gap),
{
    lemma_covered_by_both(earlier, later, max_gap);
}

/// How many of the steps from reading to reading were resets.
pub open spec fn resets_in(steps: Seq<bool>) -> int
    decreases steps.len(),
{
    if steps.len() == 0 {
        0
    } else {
        resets_in(steps.drop_last()) + reset_count(steps.last())
    }
}

/// Whether a state is that of readings pushed one after the other, where `steps` says of
/// each but the first whether the counter was reset before it.
pub open spec fn counter_of(a: CounterAggregate, readings: Seq<Sample>, steps: Seq<bool>) -> bool {
    &&& readings.len() == steps.len() + 1
    &&& a.count == readings.len()
    &&& a.first == readings[0]
    &&& a.last == readings.last()
    &&& a.resets == resets_in(steps)
}

/// A state stays that of its readings when one more is pushed.
pub proof fn pushed_readings_are_counted(
    a: CounterAggregate,
    readings: Seq<Sample>,
    steps: Seq<bool>,
    reading: Sample,
    step: CounterStep,
)
    requires
        counter_of(a, readings, steps),
        a.count < u64::MAX,
        a.resets < u64::MAX,
    ensures
        counter_of(pushed_counter(a, reading, step), readings.push(reading), steps.push(step.reset)),
{
    assert(steps.push(step.reset).drop_last() =~= steps);
}

proof fn lemma_resets_in_both(a: Seq<bool>, b: Seq<bool>)
    ensures
        resets_in(a + b) == resets_in(a) + resets_in(b),
    decreases b.len(),
{
    if b.len() == 0 {
        assert(a + b =~= a);
    } else {
        lemma_resets_in_both(a, b.drop_last());
        assert((a + b).drop_last() =~= a + b.drop_last());
    }
}

/// Two counter states merge into the state of all their readings.
pub proof fn merged_counters_match_direct_ones(
    a: CounterAggregate,
    earlier: Seq<Sample>,
    before: Seq<bool>,
    next: CounterAggregate,
    later: Seq<Sample>,
    after: Seq<bool>,
    step: CounterStep,
)
    requires
        counter_of(a, earlier, before),
        counter_of(next, later, after),
        a.count + next.count <= u64::MAX,
        a.resets + reset_count(step.reset) + next.resets <= u64::MAX,
    ensures
        counter_of(
            merged_counter(a, next, step),
            earlier + later,
            before.push(step.reset) + after,
        ),
{
    lemma_resets_in_both(before.push(step.reset), after);
    assert(before.push(step.reset).drop_last() =~= before);
}

} // verus!
