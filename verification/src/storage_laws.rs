//! What is stored, in which order, and what is taken back from files: the laws of
//! manifests, transactions, points, aggregates and snapshots.
#[allow(unused_imports)]
use crate::aggregate::{
    counter_of, covered_by, gauge_of, merged_counter, merged_gauge, pushed_counter, pushed_gauge,
    resets_in, CounterAggregate, CounterStep, GaugeAggregate, GaugeNumbers,
};
#[allow(unused_imports)]
use crate::checksum::crc32_of;
#[allow(unused_imports)]
use crate::counting::{how_many, sum_of};
#[allow(unused_imports)]
use crate::error::Error;
#[allow(unused_imports)]
use crate::fields::field;
#[allow(unused_imports)]
use crate::manifest::{
    descriptors_fault, first_good, generation_in, lemma_first_good, lemma_none_good, manifest_fault,
    read_before, Manifest, RollupDescriptor,
};
#[allow(unused_imports)]
use crate::model::Point;
#[allow(unused_imports)]
use crate::point_sort::{key_less, same_key, stored_order, with_key};
#[allow(unused_imports)]
use crate::rollup::Sample;
#[allow(unused_imports)]
use crate::safe_path::{safe_relative, single_component};
#[allow(unused_imports)]
use crate::shadow_protocol::BatchModel;
#[allow(unused_imports)]
use crate::snapshot::{files_fault, snapshot_size};
#[allow(unused_imports)]
use crate::text::text_less;
#[allow(unused_imports)]
use crate::transaction::{batch_records, points_in, RecordModel};
use vstd::prelude::*;
use vstd::string::*;

verus! {

// Manifests.

/// The first file that reads without a fault counts, whatever the others hold, and there
/// is none only where every file has a fault.
pub proof fn first_good_manifests_count(files: Seq<Result<Manifest, Error>>, i: int)
    requires
        0 <= i < files.len(),
    ensures
        first_good(files) == Some(i) <==> files[i] is Ok && (forall|j: int|
            0 <= j < i ==> (#[trigger] files[j]) is Err),
        first_good(files) is None ==> files[i] is Err,
        (forall|j: int| 0 <= j < files.len() ==> (#[trigger] files[j]) is Err) ==> first_good(files)
            is None,
    decreases files.len(),
{
    let front = files.drop_last();
    if front.len() > 0 {
        first_good_manifests_count(
            front,
            if i < front.len() {
                i
            } else {
                0
            },
        );
    }
    if forall|j: int| 0 <= j < files.len() ==> (#[trigger] files[j]) is Err {
        lemma_none_good(files);
    }
    if files[i] is Ok && (forall|j: int| 0 <= j < i ==> (#[trigger] files[j]) is Err) {
        lemma_first_good(files, i);
    }
    if first_good(files) == Some(i) {
        lemma_found(files);
    }
    if first_good(files) is None {
        lemma_not_found(files);
    }
}

proof fn lemma_found(files: Seq<Result<Manifest, Error>>)
    ensures
        first_good(files) matches Some(i) ==> 0 <= i < files.len() && files[i] is Ok && (forall|j: int|
            0 <= j < i ==> (#[trigger] files[j]) is Err),
    decreases files.len(),
{
    if files.len() > 0 {
        let front = files.drop_last();
        lemma_found(front);
        lemma_not_found(front);
        if let Some(i) = first_good(files) {
            assert forall|j: int| 0 <= j < i implies (#[trigger] files[j]) is Err by {
                assert(front[j] == files[j]);
            }
        }
    }
}

proof fn lemma_not_found(files: Seq<Result<Manifest, Error>>)
    ensures
        first_good(files) is None ==> forall|j: int|
            0 <= j < files.len() ==> (#[trigger] files[j]) is Err,
    decreases files.len(),
{
    if files.len() > 0 && first_good(files) is None {
        let front = files.drop_last();
        lemma_not_found(front);
        assert forall|j: int| 0 <= j < files.len() implies (#[trigger] files[j]) is Err by {
            if j < front.len() {
                assert(front[j] == files[j]);
            }
        }
    }
}

/// Manifests are read by falling generation, and those of one generation as they were
/// found; no two come at once.
pub proof fn newer_manifests_are_read_first(a: (u64, usize), b: (u64, usize))
    ensures
        a.0 > b.0 ==> read_before(a, b) && !read_before(b, a),
        a.0 == b.0 && a.1 < b.1 ==> read_before(a, b) && !read_before(b, a),
        a == b ==> !read_before(a, b),
{
}

/// A manifest is taken exactly where each rollup names a file in its own directory, a
/// series, and a span that is not empty.
pub proof fn manifests_name_what_can_be_read(rollups: Seq<RollupDescriptor>)
    ensures
        descriptors_fault(rollups) is None <==> forall|i: int|
            0 <= i < rollups.len() ==> {
                &&& single_component((#[trigger] rollups[i]).file@)
                &&& rollups[i].series_id != 0
                &&& rollups[i].start < rollups[i].end
            },
    decreases rollups.len(),
{
    if rollups.len() > 0 {
        let front = rollups.drop_last();
        let last = rollups[rollups.len() - 1];
        manifests_name_what_can_be_read(front);
        if descriptors_fault(rollups) is None {
            assert forall|i: int| 0 <= i < rollups.len() implies {
                &&& single_component((#[trigger] rollups[i]).file@)
                &&& rollups[i].series_id != 0
                &&& rollups[i].start < rollups[i].end
            } by {
                if i < front.len() {
                    assert(front[i] == rollups[i]);
                }
            }
        } else {
            if descriptors_fault(front) is Some {
                let i = choose|i: int|
                    0 <= i < front.len() && !({
                        &&& single_component((#[trigger] front[i]).file@)
                        &&& front[i].series_id != 0
                        &&& front[i].start < front[i].end
                    });
                assert(front[i] == rollups[i]);
            } else {
                assert(rollups.last() == last);
            }
        }
    }
}

/// A manifest file is read exactly where it is whole: the magic and the version, a payload
/// that is as long as the header says and no longer than 64 MiB, and two checksums that
/// hold.
pub proof fn whole_manifest_files_are_read(file: Seq<u8>)
    ensures
        manifest_fault(file) is None <==> {
            &&& file.len() >= 24
            &&& field(file, 0, 8) == 0x3130_3030_4e41_4d57
            &&& field(file, 8, 2) == 1
            &&& field(file, 12, 4) <= 64 * 1024 * 1024
            &&& field(file, 12, 4) == file.len() - 24
            &&& field(file, 16, 4) == crc32_of(file.skip(24))
            &&& field(file, 20, 4) == crc32_of(file.subrange(0, 20))
        },
{
}

/// Only a file whose name starts with `MANIFEST.` has a generation.
pub proof fn other_names_have_no_generation(name: Seq<char>)
    ensures
        generation_in(name) is Some ==> name.len() >= 9 && name.take(9) == "MANIFEST."@,
{
    reveal_strlit("MANIFEST.");
}

// Transactions.

/// A batch is stored whole and in order: its entities, then its relations, series, runs and
/// plans, each of them once and as it came, and its points in one record behind them.
pub proof fn batches_are_stored_whole(batch: BatchModel)
    ensures
        ({
            let records = batch_records(batch);
            let e = batch.entities.len() as int;
            let r = e + batch.relations.len();
            let s = r + batch.series.len();
            let u = s + batch.runs.len();
            let p = u + batch.plans.len();
            &&& records.len() == p + if batch.points.len() == 0 {
                0int
            } else {
                1
            }
            &&& forall|i: int|
                0 <= i < e ==> #[trigger] records[i] == RecordModel::Entity(batch.entities[i])
            &&& forall|i: int|
                e <= i < r ==> #[trigger] records[i] == RecordModel::Relation(
                    batch.relations[i - e],
                )
            &&& forall|i: int|
                r <= i < s ==> #[trigger] records[i] == RecordModel::Series(batch.series[i - r])
            &&& forall|i: int|
                s <= i < u ==> #[trigger] records[i] == RecordModel::Run(batch.runs[i - s])
            &&& forall|i: int|
                u <= i < p ==> #[trigger] records[i] == RecordModel::Plan(batch.plans[i - u])
            &&& batch.points.len() > 0 ==> records[p] == RecordModel::Points(batch.points)
            &&& points_in(records) == batch.points.len()
        }),
{
    let records = batch_records(batch);
    let p = batch.entities.len() + batch.relations.len() + batch.series.len() + batch.runs.len()
        + batch.plans.len();
    let front = records.take(p as int);
    lemma_no_points(front);
    if batch.points.len() > 0 {
        assert(records.drop_last() =~= front);
        assert(records.last() == RecordModel::Points(batch.points));
    } else {
        assert(records =~= front);
    }
}

proof fn lemma_no_points(records: Seq<RecordModel>)
    requires
        forall|i: int| 0 <= i < records.len() ==> !((#[trigger] records[i]) is Points),
    ensures
        points_in(records) == 0,
    decreases records.len(),
{
    if records.len() > 0 {
        let front = records.drop_last();
        assert forall|i: int| 0 <= i < front.len() implies !((#[trigger] front[i]) is Points) by {
            assert(front[i] == records[i]);
        }
        lemma_no_points(front);
        assert(!(records[records.len() - 1] is Points));
    }
}

// Points.

/// Whether two points are of one series and of the same three times.
pub open spec fn same_times(a: Point, b: Point) -> bool {
    &&& a.series_id == b.series_id
    &&& a.valid_time == b.valid_time
    &&& a.knowledge_time == b.knowledge_time
    &&& a.change_time == b.change_time
}

proof fn lemma_with_key_filters(p: Seq<Point>, x: Point)
    ensures
        with_key(p, x) == p.filter(|y: Point| same_times(y, x)),
    decreases p.len(),
{
    reveal(Seq::filter);
    if p.len() > 0 {
        lemma_with_key_filters(p.drop_last(), x);
        assert(same_key(p.last(), x) <==> same_times(p.last(), x));
    }
}

/// Points are stored by series, then by valid time, knowledge time and change time.
pub proof fn points_are_stored_by_time(out: Seq<Point>, p: Seq<Point>, i: int, j: int)
    requires
        stored_order(out, p),
        0 <= i < j < out.len(),
    ensures
        out[i].series_id <= out[j].series_id,
        out[i].series_id == out[j].series_id ==> out[i].valid_time <= out[j].valid_time,
        out[i].series_id == out[j].series_id && out[i].valid_time == out[j].valid_time
            ==> out[i].knowledge_time <= out[j].knowledge_time,
        out[i].series_id == out[j].series_id && out[i].valid_time == out[j].valid_time
            && out[i].knowledge_time == out[j].knowledge_time ==> out[i].change_time
            <= out[j].change_time,
{
    assert(!key_less(out[j], out[i]));
}

/// Nothing is lost or made up when points are put in order, and points of one series with
/// the same times stay in the order in which they came.
pub proof fn ordered_points_are_the_same_points(out: Seq<Point>, p: Seq<Point>, x: Point)
    requires
        stored_order(out, p),
    ensures
        out.filter(|y: Point| same_times(y, x)) == p.filter(|y: Point| same_times(y, x)),
        out.to_multiset().count(x) == p.to_multiset().count(x),
{
    lemma_with_key_filters(out, x);
    lemma_with_key_filters(p, x);
    lemma_counted_with_key(out, x);
    lemma_counted_with_key(p, x);
    assert(with_key(out, x) == with_key(p, x));
}

proof fn lemma_counted_with_key(p: Seq<Point>, x: Point)
    ensures
        p.to_multiset().count(x) == with_key(p, x).to_multiset().count(x),
    decreases p.len(),
{
    broadcast use vstd::seq_lib::group_to_multiset_ensures;

    if p.len() > 0 {
        let front = p.drop_last();
        lemma_counted_with_key(front, x);
        assert(p =~= front.push(p.last()));
        assert(p.to_multiset() =~= front.to_multiset().insert(p.last()));
        if same_key(p.last(), x) {
            let w = with_key(front, x);
            assert(w.push(p.last()).to_multiset() =~= w.to_multiset().insert(p.last()));
        } else {
            assert(p.last() != x);
        }
    }
}

// Aggregates.

/// What the time from sample to sample adds to what is covered: all of it where the gap is
/// not too long, and nothing otherwise.
pub open spec fn short_gaps(samples: Seq<Sample>, max_gap: int) -> Seq<int> {
    Seq::new(
        (samples.len() - 1) as nat,
        |i: int|
            if samples[i + 1].timestamp - samples[i].timestamp <= max_gap {
                samples[i + 1].timestamp - samples[i].timestamp
            } else {
                0
            },
    )
}

/// A gauge covers the gaps between its samples that are not too long, and no others.
pub proof fn gauges_cover_short_gaps(a: GaugeAggregate, samples: Seq<Sample>, max_gap: int)
    requires
        gauge_of(a, samples, max_gap),
    ensures
        a.covered_micros == sum_of(short_gaps(samples, max_gap)),
{
    lemma_covered(samples, max_gap);
}

proof fn lemma_covered(samples: Seq<Sample>, max_gap: int)
    requires
        samples.len() > 0,
    ensures
        covered_by(samples, max_gap) == sum_of(short_gaps(samples, max_gap)),
    decreases samples.len(),
{
    if samples.len() > 1 {
        let front = samples.drop_last();
        lemma_covered(front, max_gap);
        assert(short_gaps(samples, max_gap).drop_last() =~= short_gaps(front, max_gap));
    }
}

/// What a sample changes in a gauge: one more is counted, it is the last, and a gap before
/// it that is not too long is covered. What two states hold is added up, with the gap
/// between them.
pub proof fn gauges_take_samples(
    a: GaugeAggregate,
    next: GaugeAggregate,
    sample: Sample,
    max_gap: int,
    numbers: GaugeNumbers,
)
    requires
        a.count + next.count <= u64::MAX,
        a.count < u64::MAX,
        0 <= a.covered_micros + next.covered_micros + max_gap <= i64::MAX,
        0 <= a.covered_micros + max_gap <= i64::MAX,
        0 <= a.covered_micros,
        0 <= next.covered_micros,
        0 <= max_gap,
        a.last.timestamp <= sample.timestamp,
        a.last.timestamp <= next.first.timestamp,
    ensures
        ({
            let pushed = pushed_gauge(a, sample, max_gap, numbers);
            let gap = sample.timestamp - a.last.timestamp;
            &&& pushed.count == a.count + 1
            &&& pushed.first == a.first
            &&& pushed.last == sample
            &&& gap <= max_gap ==> pushed.covered_micros == a.covered_micros + gap
            &&& gap > max_gap ==> pushed.covered_micros == a.covered_micros
        }),
        ({
            let merged = merged_gauge(a, next, max_gap, numbers);
            let gap = next.first.timestamp - a.last.timestamp;
            let both = a.covered_micros + next.covered_micros;
            &&& merged.count == a.count + next.count
            &&& merged.first == a.first
            &&& merged.last == next.last
            &&& gap <= max_gap ==> merged.covered_micros == both + gap
            &&& gap > max_gap ==> merged.covered_micros == both
        }),
{
}

/// A counter counts its readings and its resets: those of which the steps say so.
pub proof fn counters_count_resets(a: CounterAggregate, readings: Seq<Sample>, steps: Seq<bool>)
    requires
        counter_of(a, readings, steps),
    ensures
        a.count == steps.len() + 1,
        a.resets == how_many(steps.len(), |i: int| steps[i]),
{
    lemma_resets(steps, steps.len() as int);
    assert(steps.take(steps.len() as int) =~= steps);
}

proof fn lemma_resets(steps: Seq<bool>, n: int)
    requires
        0 <= n <= steps.len(),
    ensures
        resets_in(steps.take(n)) == how_many(n as nat, |i: int| steps[i]),
    decreases n,
{
    if n > 0 {
        lemma_resets(steps, n - 1);
        assert(steps.take(n).drop_last() =~= steps.take(n - 1));
    }
}

/// What a reading changes in a counter, and what two counters give together.
pub proof fn counters_take_readings(
    a: CounterAggregate,
    next: CounterAggregate,
    reading: Sample,
    step: CounterStep,
)
    requires
        a.count + next.count <= u64::MAX,
        a.count < u64::MAX,
        a.resets + next.resets < u64::MAX,
    ensures
        ({
            let pushed = pushed_counter(a, reading, step);
            &&& pushed.count == a.count + 1
            &&& pushed.first == a.first
            &&& pushed.last == reading
            &&& step.reset ==> pushed.resets == a.resets + 1
            &&& !step.reset ==> pushed.resets == a.resets
        }),
        ({
            let merged = merged_counter(a, next, step);
            &&& merged.count == a.count + next.count
            &&& merged.first == a.first
            &&& merged.last == next.last
            &&& step.reset ==> merged.resets == a.resets + next.resets + 1
            &&& !step.reset ==> merged.resets == a.resets + next.resets
        }),
{
}

// Snapshots.

/// A snapshot is digested exactly where its paths are safe and strictly ascend, and its
/// bytes can be counted.
pub proof fn snapshots_are_digested_where_paths_ascend(files: Seq<(Seq<char>, Seq<u8>)>)
    ensures
        files_fault(files) is None <==> {
            &&& forall|i: int| 0 <= i < files.len() ==> safe_relative((#[trigger] files[i]).0)
            &&& forall|i: int|
                0 < i < files.len() ==> text_less(files[i - 1].0, (#[trigger] files[i]).0)
            &&& snapshot_size(files) <= u64::MAX
        },
    decreases files.len(),
{
    if files.len() > 0 {
        let front = files.drop_last();
        snapshots_are_digested_where_paths_ascend(front);
        let n = files.len() - 1;
        assert(forall|i: int| 0 <= i < n ==> #[trigger] front[i] == files[i]);
        if files_fault(files) is None {
            assert forall|i: int| 0 <= i < files.len() implies safe_relative(
                (#[trigger] files[i]).0,
            ) by {
                if i < n {
                    assert(safe_relative(front[i].0));
                }
            }
            assert forall|i: int| 0 < i < files.len() implies text_less(
                files[i - 1].0,
                (#[trigger] files[i]).0,
            ) by {
                if i < n {
                    assert(text_less(front[i - 1].0, front[i].0));
                }
            }
        }
        if (forall|i: int| 0 <= i < files.len() ==> safe_relative((#[trigger] files[i]).0)) && (
        forall|i: int| 0 < i < files.len() ==> text_less(files[i - 1].0, (#[trigger] files[i]).0))
            && snapshot_size(files) <= u64::MAX {
            assert forall|i: int| 0 <= i < front.len() implies safe_relative(
                (#[trigger] front[i]).0,
            ) by {
                assert(safe_relative(files[i].0));
            }
            assert forall|i: int| 0 < i < front.len() implies text_less(
                front[i - 1].0,
                (#[trigger] front[i]).0,
            ) by {
                assert(text_less(files[i - 1].0, files[i].0));
            }
            assert(safe_relative(files[n].0));
            if n > 0 {
                assert(text_less(files[n - 1].0, files[n].0));
            }
        }
    }
}

/// The size of a snapshot is the sum of the sizes of its files.
pub proof fn snapshot_sizes_add_up(files: Seq<(Seq<char>, Seq<u8>)>)
    ensures
        snapshot_size(files) == sum_of(Seq::new(files.len(), |i: int| files[i].1.len() as int)),
    decreases files.len(),
{
    let sizes = Seq::new(files.len(), |i: int| files[i].1.len() as int);
    if files.len() > 0 {
        let front = files.drop_last();
        snapshot_sizes_add_up(front);
        assert(sizes.drop_last() =~= Seq::new(front.len(), |i: int| front[i].1.len() as int));
    }
}

} // verus!
