//! Rollups of gauge series into buckets of time.
use crate::error::Error;
use crate::map_keys::i64_keys;
use crate::model::{FloatBits, Point};
use crate::point_sort::sort_points;
#[allow(unused_imports)]
use crate::point_sort::{
    key_less, key_sorted, lemma_with_key_contains, same_key, storage_order_is_unique, stored_order, with_key,
};
use std::collections::BTreeMap;
use vstd::arithmetic::div_mod::{lemma_fundamental_div_mod, lemma_fundamental_div_mod_converse};
use vstd::prelude::*;
use vstd::std_specs::btree::*;

verus! {

/// A value at a point in time.
#[derive(Clone, Copy, Debug, PartialEq)]
pub struct Sample {
    pub timestamp: i64,
    pub value: FloatBits,
}

impl Sample {
    pub fn new(timestamp: i64, value: FloatBits) -> (sample: Sample)
        ensures
            sample == (Sample { timestamp, value }),
    {
        Sample { timestamp, value }
    }
}

/// A closed aggregate state for one bucket of time.
///
/// Its integral is already clipped at the bucket edges. Therefore states can be
/// added to coarser levels without reading points or inventing coverage between
/// buckets.
#[derive(Clone, Copy, Debug, PartialEq)]
pub struct GaugeBucket {
    pub start: i64,
    pub end: i64,
    pub count: u64,
    pub sum: FloatBits,
    pub min: Option<FloatBits>,
    pub max: Option<FloatBits>,
    pub first: Option<Sample>,
    pub last: Option<Sample>,
    pub integral_value_micros: FloatBits,
    pub covered_micros: i64,
}

/// Part of the time for which a value held.
#[derive(Clone, Copy, Debug, PartialEq)]
pub struct Hold {
    pub value: FloatBits,
    pub micros: i64,
}

/// What goes into one bucket: the samples taken in it, and the values that held
/// during parts of it, each in order of time.
#[derive(Debug)]
pub struct BucketParts {
    pub start: i64,
    pub end: i64,
    pub samples: Vec<Sample>,
    pub holds: Vec<Hold>,
}

/// The start of the bucket of width `resolution` that holds a time.
pub open spec fn bucket_floor(time: int, resolution: int) -> int {
    resolution * (time / resolution)
}

/// The start of the bucket that holds `time`.
pub fn bucket_start(time: i64, resolution: i64) -> (start: i64)
    requires
        resolution > 0,
        bucket_floor(time as int, resolution as int) >= i64::MIN,
    ensures
        start == bucket_floor(time as int, resolution as int),
        start <= time < start + resolution,
{
    let r: u128 = resolution as u128;
    proof {
        lemma_fundamental_div_mod(time as int, resolution as int);
    }
    if time >= 0 {
        let q: u128 = (time as u128) / r;
        proof {
            lemma_fundamental_div_mod(time as int, r as int);
            assert(r * q == resolution * (time as int / resolution as int));
            assert(q * r == r * q) by (nonlinear_arith);
        }
        (q * r) as i64
    } else {
        let m: u128 = (-(time as i128)) as u128;
        let q: u128 = (m + r - 1) / r;
        proof {
            lemma_fundamental_div_mod(m + r - 1, r as int);
            let rest = (m + r - 1) % r as int;
            assert(r * q == q * r && r * (-q) == -(r * q)) by (nonlinear_arith);
            assert(time == r * (-q) + (r - 1 - rest));
            assert(time == (-q) * r + (r - 1 - rest)) by (nonlinear_arith)
                requires
                    time == r * (-q) + (r - 1 - rest),
            ;
            lemma_fundamental_div_mod_converse(time as int, r as int, -q, r - 1 - rest);
        }
        (-((q * r) as i128)) as i64
    }
}

/// The samples in bucket `s`.
pub open spec fn samples_for(o: Seq<Point>, s: int, resolution: int) -> Seq<Sample>
    decreases o.len(),
{
    if o.len() == 0 {
        Seq::empty()
    } else {
        let front = samples_for(o.drop_last(), s, resolution);
        let last = o.last();
        if bucket_floor(last.valid_time as int, resolution) == s {
            front.push(Sample { timestamp: last.valid_time, value: last.value })
        } else {
            front
        }
    }
}

/// The part of `s..e` for which the value of `previous` held until `next`. A value
/// does not hold over a gap longer than `max_gap`.
pub open spec fn clipped(previous: Point, next: Point, s: int, e: int, max_gap: int) -> int {
    let gap = next.valid_time - previous.valid_time;
    let from = if previous.valid_time > s {
        previous.valid_time as int
    } else {
        s
    };
    let to = if next.valid_time < e {
        next.valid_time as int
    } else {
        e
    };
    if 0 < gap <= max_gap && from < to {
        to - from
    } else {
        0
    }
}

/// The values that held during bucket `s`.
pub open spec fn holds_for(o: Seq<Point>, s: int, resolution: int, max_gap: int) -> Seq<Hold>
    decreases o.len(),
{
    if o.len() <= 1 {
        Seq::empty()
    } else {
        let front = holds_for(o.drop_last(), s, resolution, max_gap);
        let previous = o[o.len() - 2];
        let micros = clipped(previous, o.last(), s, s + resolution, max_gap);
        if micros > 0 {
            front.push(Hold { value: previous.value, micros: micros as i64 })
        } else {
            front
        }
    }
}

/// The times and values of points, without what else they carry.
pub open spec fn plain(p: Point) -> Point {
    Point {
        series_id: 0,
        valid_time: p.valid_time,
        valid_time_end: 0,
        knowledge_time: 0,
        change_time: 0,
        run_id: 0,
        value: p.value,
        quality: 0,
        flags: 0,
    }
}

pub open spec fn plain_points(p: Seq<Point>) -> Seq<Point> {
    Seq::new(p.len(), |i: int| plain(p[i]))
}

pub(crate) fn in_time_order(points: &[Point]) -> (ordered: Vec<Point>)
    ensures
        stored_order(ordered@, plain_points(points@)),
{
    let mut stripped: Vec<Point> = Vec::new();
    let mut i: usize = 0;
    while i < points.len()
        invariant
            i <= points@.len(),
            stripped@ == plain_points(points@.take(i as int)),
        decreases points@.len() - i,
    {
        let p = points[i];
        stripped.push(
            Point {
                series_id: 0,
                valid_time: p.valid_time,
                valid_time_end: 0,
                knowledge_time: 0,
                change_time: 0,
                run_id: 0,
                value: p.value,
                quality: 0,
                flags: 0,
            },
        );
        i = i + 1;
        assert(stripped@ =~= plain_points(points@.take(i as int)));
    }
    assert(points@.take(points@.len() as int) =~= points@);
    sort_points(stripped.as_slice())
}

/// The buckets that samples and holds have reached so far.
pub struct RollupParts {
    buckets: BTreeMap<i64, BucketParts>,
}

impl RollupParts {
    /// The buckets by their starts.
    pub closed spec fn buckets(&self) -> Map<i64, BucketParts> {
        self.buckets@
    }

    pub open spec fn samples(&self, s: i64) -> Seq<Sample> {
        if self.buckets().contains_key(s) {
            self.buckets()[s].samples@
        } else {
            Seq::empty()
        }
    }

    pub open spec fn holds(&self, s: i64) -> Seq<Hold> {
        if self.buckets().contains_key(s) {
            self.buckets()[s].holds@
        } else {
            Seq::empty()
        }
    }

    /// Whether each bucket stands under its start.
    pub open spec fn keyed(&self) -> bool {
        forall|s: i64| #[trigger] self.buckets().contains_key(s) ==> self.buckets()[s].start == s
    }

    pub fn new() -> (parts: Self)
        ensures
            parts.buckets() == Map::<i64, BucketParts>::empty(),
    {
        RollupParts { buckets: BTreeMap::new() }
    }

    /// Adds a sample to the bucket `start..end`, which is made where there is none.
    pub fn add_sample(&mut self, start: i64, end: i64, sample: Sample)
        requires
            old(self).keyed(),
        ensures
            final(self).keyed(),
            final(self).buckets().dom() == old(self).buckets().dom().insert(start),
            forall|s: i64| #[trigger]
                final(self).samples(s) == if s == start {
                    old(self).samples(s).push(sample)
                } else {
                    old(self).samples(s)
                },
            forall|s: i64| #[trigger] final(self).holds(s) == old(self).holds(s),
            forall|s: i64| #[trigger]
                final(self).buckets().contains_key(s) ==> final(self).buckets()[s].end == if old(
                    self,
                ).buckets().contains_key(s) {
                    old(self).buckets()[s].end
                } else {
                    end
                },
    {
        let mut part: BucketParts = match self.buckets.remove(&start) {
            Some(part) => part,
            None => BucketParts { start, end, samples: Vec::new(), holds: Vec::new() },
        };
        part.samples.push(sample);
        self.buckets.insert(start, part);
        assert(self.buckets().dom() =~= old(self).buckets().dom().insert(start));
    }

    /// Adds a hold to the bucket `start..end`, which is made where there is none.
    pub fn add_covered_interval(&mut self, start: i64, end: i64, hold: Hold)
        requires
            old(self).keyed(),
        ensures
            final(self).keyed(),
            final(self).buckets().dom() == old(self).buckets().dom().insert(start),
            forall|s: i64| #[trigger] final(self).samples(s) == old(self).samples(s),
            forall|s: i64| #[trigger]
                final(self).holds(s) == if s == start {
                    old(self).holds(s).push(hold)
                } else {
                    old(self).holds(s)
                },
            forall|s: i64| #[trigger]
                final(self).buckets().contains_key(s) ==> final(self).buckets()[s].end == if old(
                    self,
                ).buckets().contains_key(s) {
                    old(self).buckets()[s].end
                } else {
                    end
                },
    {
        let mut part: BucketParts = match self.buckets.remove(&start) {
            Some(part) => part,
            None => BucketParts { start, end, samples: Vec::new(), holds: Vec::new() },
        };
        part.holds.push(hold);
        self.buckets.insert(start, part);
        assert(self.buckets().dom() =~= old(self).buckets().dom().insert(start));
    }

    /// Adds the part of a hold that lies in the bucket `bucket_start..bucket_end`,
    /// and gives the time up to which the hold has then been added.
    pub fn add_piece(
        &mut self,
        bucket_start: i64,
        bucket_end: i64,
        from: i64,
        to: i64,
        value: FloatBits,
    ) -> (next: i64)
        requires
            old(self).keyed(),
            from < to,
            from < bucket_end,
            to - from <= i64::MAX,
        ensures
            next == if to < bucket_end {
                to
            } else {
                bucket_end
            },
            final(self).keyed(),
            final(self).buckets().dom() == old(self).buckets().dom().insert(bucket_start),
            forall|s: i64| #[trigger] final(self).samples(s) == old(self).samples(s),
            forall|s: i64| #[trigger]
                final(self).holds(s) == if s == bucket_start {
                    old(self).holds(s).push(Hold { value, micros: (next - from) as i64 })
                } else {
                    old(self).holds(s)
                },
            forall|s: i64| #[trigger]
                final(self).buckets().contains_key(s) ==> final(self).buckets()[s].end == if old(
                    self,
                ).buckets().contains_key(s) {
                    old(self).buckets()[s].end
                } else {
                    bucket_end
                },
    {
        let next: i64 = if to < bucket_end {
            to
        } else {
            bucket_end
        };
        self.add_covered_interval(bucket_start, bucket_end, Hold { value, micros: next - from });
        next
    }
}

impl RollupParts {
    /// The buckets in order of time.
    pub fn into_buckets(self) -> (list: Vec<BucketParts>)
        requires
            self.keyed(),
        ensures
            ascending_starts(list@),
            forall|i: int|
                0 <= i < list@.len() ==> self.buckets().contains_key(#[trigger] list@[i].start)
                    && self.buckets()[list@[i].start] == list@[i],
            forall|s: i64| self.buckets().contains_key(s) ==> #[trigger] listed(list@, s),
    {
        broadcast use group_btree_axioms;

        let ghost all = self.buckets();
        let keys = i64_keys(&self.buckets);
        let mut rest = self.buckets;
        let mut list: Vec<BucketParts> = Vec::new();
        proof {
            assert forall|j: int| 0 <= j < keys@.len() implies rest@.contains_key(
                #[trigger] keys@[j],
            ) by {
                assert(keys@.contains(keys@[j]));
            }
        }
        let mut i: usize = 0;
        while i < keys.len()
            invariant
                i <= keys@.len(),
                list@.len() == i,
                forall|j: int| 0 <= j < i ==> (#[trigger] list@[j]).start == keys@[j],
                forall|j: int| 0 <= j < i ==> list@[j] == all[#[trigger] keys@[j]],
                forall|j: int| i <= j < keys@.len() ==> rest@.contains_key(#[trigger] keys@[j]),
                forall|k: i64| #[trigger] rest@.contains_key(k) ==> rest@[k] == all[k],
                forall|k: i64| #[trigger] keys@.contains(k) <==> all.contains_key(k),
                forall|k: i64| #[trigger] all.contains_key(k) ==> all[k].start == k,
                forall|a: int, b: int|
                    #![trigger keys@[a], keys@[b]]
                    0 <= a < b < keys@.len() ==> keys@[a] < keys@[b],
            decreases keys@.len() - i,
        {
            broadcast use group_btree_axioms;

            let key: i64 = keys[i];
            assert(rest@.contains_key(keys@[i as int]));
            assert(keys@.contains(key));
            if let Some(part) = rest.remove(&key) {
                list.push(part);
            }
            i = i + 1;
        }
        proof {
            assert forall|j: int| 0 <= j < list@.len() implies all.contains_key(
                #[trigger] list@[j].start,
            ) && all[list@[j].start] == list@[j] by {
                assert(list@[j].start == keys@[j]);
                assert(keys@.contains(keys@[j]));
            }
            assert forall|s: i64| all.contains_key(s) implies #[trigger] listed(list@, s) by {
                assert(keys@.contains(s));
                let j = choose|j: int| 0 <= j < keys@.len() && keys@[j] == s;
                assert(list@[j].start == s);
            }
            assert forall|a: int, b: int|
                #![trigger list@[a], list@[b]]
                0 <= a < b < list@.len() implies list@[a].start < list@[b].start by {
                assert(list@[a].start == keys@[a] && list@[b].start == keys@[b]);
            }
        }
        list
    }
}

/// Whether buckets stand in order of time.
pub open spec fn ascending_starts(list: Seq<BucketParts>) -> bool {
    forall|i: int, j: int|
        #![trigger list[i], list[j]]
        0 <= i < j < list.len() ==> list[i].start < list[j].start
}

/// Whether one of the buckets starts at `s`.
pub open spec fn listed(list: Seq<BucketParts>, s: i64) -> bool {
    exists|i: int| 0 <= i < list.len() && (#[trigger] list[i]).start == s
}

/// Whether a bucket may start at `s`.
pub open spec fn aligned(s: int, resolution: int) -> bool {
    bucket_floor(s, resolution) == s
}

/// Whether the bucket of a time has edges that can be stored.
pub open spec fn bucket_fits(time: i64, resolution: i64) -> bool {
    let start = bucket_floor(time as int, resolution as int);
    i64::MIN <= start && start + resolution <= i64::MAX
}

/// Whether something falls into the bucket at `s`.
pub open spec fn has_parts(o: Seq<Point>, s: int, resolution: int, max_gap: int) -> bool {
    samples_for(o, s, resolution).len() > 0 || holds_for(o, s, resolution, max_gap).len() > 0
}

/// Whether buckets hold what falls into them of points in order of time, and no bucket
/// is missing or empty.
pub open spec fn rolled_up(
    list: Seq<BucketParts>,
    o: Seq<Point>,
    resolution: i64,
    max_gap: i64,
) -> bool {
    &&& ascending_starts(list)
    &&& forall|i: int|
        0 <= i < list.len() ==> {
            let bucket = #[trigger] list[i];
            &&& aligned(bucket.start as int, resolution as int)
            &&& bucket.end == bucket.start + resolution
            &&& bucket.samples@ == samples_for(o, bucket.start as int, resolution as int)
            &&& bucket.holds@ == holds_for(
                o,
                bucket.start as int,
                resolution as int,
                max_gap as int,
            )
            &&& has_parts(o, bucket.start as int, resolution as int, max_gap as int)
        }
    &&& forall|s: i64|
        aligned(s as int, resolution as int) && has_parts(
            o,
            s as int,
            resolution as int,
            max_gap as int,
        ) ==> #[trigger] listed(list, s)
}

/// Whether buckets are the rollup of points: the points in order of time, those of one
/// time as they came, fall into them.
pub open spec fn rollup_of(
    list: Seq<BucketParts>,
    points: Seq<Point>,
    resolution: i64,
    max_gap: i64,
) -> bool {
    exists|o: Seq<Point>|
        stored_order(o, plain_points(points)) && #[trigger] rolled_up(
            list,
            o,
            resolution,
            max_gap,
        )
}

/// Two different starts of buckets are at least one bucket apart.
proof fn lemma_aligned_apart(a: int, b: int, resolution: int)
    requires
        resolution > 0,
        aligned(a, resolution),
        aligned(b, resolution),
        a < b,
    ensures
        a + resolution <= b,
{
    let x = a / resolution;
    let y = b / resolution;
    assert(a + resolution <= b) by (nonlinear_arith)
        requires
            resolution > 0,
            a == resolution * x,
            b == resolution * y,
            a < b,
    ;
}

/// The start of a bucket is its own start, and the next bucket starts where it ends.
pub proof fn lemma_floor_aligned(time: int, resolution: int)
    requires
        resolution > 0,
    ensures
        aligned(bucket_floor(time, resolution), resolution),
        aligned(bucket_floor(time, resolution) + resolution, resolution),
        bucket_floor(time, resolution) <= time < bucket_floor(time, resolution) + resolution,
{
    let q = time / resolution;
    lemma_fundamental_div_mod(time, resolution);
    assert(resolution * q == q * resolution + 0) by (nonlinear_arith);
    lemma_fundamental_div_mod_converse(resolution * q, resolution, q, 0);
    assert(resolution * q + resolution == (q + 1) * resolution + 0) by (nonlinear_arith);
    assert(resolution * (q + 1) == resolution * q + resolution) by (nonlinear_arith);
    lemma_fundamental_div_mod_converse(resolution * q + resolution, resolution, q + 1, 0);
}

/// Times between two whose buckets fit have buckets that fit.
proof fn lemma_fits_between(from: i64, time: i64, to: i64, resolution: i64)
    requires
        resolution > 0,
        bucket_fits(from, resolution),
        bucket_fits(to, resolution),
        from <= time <= to,
    ensures
        bucket_fits(time, resolution),
{
    let r = resolution as int;
    lemma_floor_aligned(from as int, r);
    lemma_floor_aligned(time as int, r);
    lemma_floor_aligned(to as int, r);
    let a = bucket_floor(from as int, r);
    let b = bucket_floor(time as int, r);
    let c = bucket_floor(to as int, r);
    if b < a {
        lemma_aligned_apart(b, a, r);
    }
    if c < b {
        lemma_aligned_apart(c, b, r);
    }
}

/// Points in order of time have the times of the points they came from.
proof fn lemma_ordered_times(o: Seq<Point>, points: Seq<Point>, i: int)
    requires
        stored_order(o, plain_points(points)),
        0 <= i < o.len(),
    ensures
        exists|j: int| 0 <= j < points.len() && (#[trigger] points[j]).valid_time == o[i].valid_time,
{
    let p = plain_points(points);
    assert(o.contains(o[i]));
    lemma_with_key_contains(o, o[i], o[i]);
    assert(with_key(o, o[i]) == with_key(p, o[i]));
    lemma_with_key_contains(p, o[i], o[i]);
    let j = choose|j: int| 0 <= j < p.len() && p[j] == o[i];
    assert(points[j].valid_time == o[i].valid_time);
}

/// The part of `s..e` in which a value that holds from `from` has held up to `upto`.
spec fn held_until(from: int, upto: int, s: int, e: int) -> int {
    let lo = if from > s {
        from
    } else {
        s
    };
    let hi = if upto < e {
        upto
    } else {
        e
    };
    if lo < hi {
        hi - lo
    } else {
        0
    }
}

/// Holds with one more, where it is not empty.
spec fn held(front: Seq<Hold>, value: FloatBits, micros: int) -> Seq<Hold> {
    if micros > 0 {
        front.push(Hold { value, micros: micros as i64 })
    } else {
        front
    }
}

/// Whether the buckets are those of `resolution`, and none is empty.
spec fn buckets_ok(parts: RollupParts, resolution: int) -> bool {
    &&& parts.keyed()
    &&& forall|s: i64| #[trigger]
        parts.buckets().contains_key(s) ==> {
            &&& aligned(s as int, resolution)
            &&& parts.buckets()[s].end == s + resolution
            &&& parts.samples(s).len() > 0 || parts.holds(s).len() > 0
        }
}

/// Fixed-duration rollups of one gauge series. Interpolation holds the previous value.
/// A gap longer than the maximum contributes neither coverage nor energy.
#[derive(Debug)]
pub struct FixedGaugeRollup {
    resolution_micros: i64,
    buckets: Vec<BucketParts>,
}

impl FixedGaugeRollup {
    pub closed spec fn resolution(&self) -> i64 {
        self.resolution_micros
    }

    pub closed spec fn list(&self) -> Seq<BucketParts> {
        self.buckets@
    }

    /// Whether the buckets stand in order and the resolution is one.
    pub open spec fn ok(&self) -> bool {
        self.resolution() > 0 && ascending_starts(self.list())
    }

    /// Builds rollups from the latest revisions of points, in whatever order they come.
    pub fn build(points: &[Point], resolution_micros: i64, max_gap_micros: i64) -> (outcome: Result<
        Self,
        Error,
    >)
        requires
            resolution_micros > 0 && max_gap_micros >= 0 ==> forall|i: int|
                0 <= i < points@.len() ==> bucket_fits(
                    (#[trigger] points@[i]).valid_time,
                    resolution_micros,
                ),
        ensures
            match outcome {
                Err(error) => if resolution_micros <= 0 {
                    error == Error::InvalidArgument("resolution must be positive")
                } else {
                    max_gap_micros < 0 && error == Error::InvalidArgument(
                        "maximum gap must not be negative",
                    )
                },
                Ok(rollup) => {
                    &&& resolution_micros > 0 && max_gap_micros >= 0
                    &&& rollup.ok()
                    &&& rollup.resolution() == resolution_micros
                    &&& rollup_of(rollup.list(), points@, resolution_micros, max_gap_micros)
                },
            },
    {
        if resolution_micros <= 0 {
            return Err(Error::InvalidArgument("resolution must be positive"));
        }
        if max_gap_micros < 0 {
            return Err(Error::InvalidArgument("maximum gap must not be negative"));
        }
        let ordered = in_time_order(points);
        let ghost o = ordered@;
        let ghost r = resolution_micros as int;
        let ghost g = max_gap_micros as int;
        proof {
            assert forall|i: int| 0 <= i < o.len() implies bucket_fits(
                (#[trigger] o[i]).valid_time,
                resolution_micros,
            ) by {
                lemma_ordered_times(o, points@, i);
            }
        }
        let mut parts = RollupParts::new();
        let mut i: usize = 0;
        while i < ordered.len()
            invariant
                i <= o.len(),
                o == ordered@,
                resolution_micros > 0,
                r == resolution_micros,
                forall|j: int|
                    0 <= j < o.len() ==> bucket_fits((#[trigger] o[j]).valid_time, resolution_micros),
                buckets_ok(parts, r),
                forall|s: i64| #[trigger]
                    parts.samples(s) == samples_for(o.take(i as int), s as int, r),
                forall|s: i64| #[trigger] parts.holds(s) == Seq::<Hold>::empty(),
            decreases o.len() - i,
        {
            let point = ordered[i];
            assert(bucket_fits(o[i as int].valid_time, resolution_micros));
            proof {
                lemma_floor_aligned(point.valid_time as int, r);
                assert(o.take(i + 1).drop_last() =~= o.take(i as int));
            }
            let start: i64 = bucket_start(point.valid_time, resolution_micros);
            let ghost before = parts;
            parts.add_sample(
                start,
                start + resolution_micros,
                Sample::new(point.valid_time, point.value),
            );
            i = i + 1;
            proof {
                assert forall|s: i64| #[trigger] parts.buckets().contains_key(s) implies {
                    &&& aligned(s as int, r)
                    &&& parts.buckets()[s].end == s + r
                    &&& parts.samples(s).len() > 0 || parts.holds(s).len() > 0
                } by {
                    if before.buckets().contains_key(s) {
                        assert(before.samples(s).len() > 0);
                    }
                    assert(parts.samples(s) == if s == start {
                        before.samples(s).push(
                            Sample { timestamp: point.valid_time, value: point.value },
                        )
                    } else {
                        before.samples(s)
                    });
                }
            }
        }
        assert(o.take(o.len() as int) =~= o);
        assert forall|s: i64| #[trigger] parts.holds(s) == holds_for(
            o.take(if o.len() == 0 {
                0
            } else {
                1
            }),
            s as int,
            r,
            g,
        ) by {}
        let mut k: usize = if ordered.len() == 0 {
            0
        } else {
            1
        };
        while k < ordered.len()
            invariant
                k <= o.len(),
                o.len() > 0 ==> k >= 1,
                o == ordered@,
                resolution_micros > 0,
                r == resolution_micros,
                max_gap_micros >= 0,
                g == max_gap_micros,
                forall|j: int|
                    0 <= j < o.len() ==> bucket_fits((#[trigger] o[j]).valid_time, resolution_micros),
                buckets_ok(parts, r),
                forall|s: i64| #[trigger] parts.samples(s) == samples_for(o, s as int, r),
                forall|s: i64|
                    aligned(s as int, r) ==> #[trigger] parts.holds(s) == holds_for(
                        o.take(k as int),
                        s as int,
                        r,
                        g,
                    ),
            decreases o.len() - k,
        {
            let previous = ordered[k - 1];
            let next = ordered[k];
            let gap: i128 = next.valid_time as i128 - previous.valid_time as i128;
            let ghost before = parts;
            proof {
                assert(o.take(k + 1).drop_last() =~= o.take(k as int));
                assert(o.take(k + 1).last() == next);
                assert(o.take(k + 1)[k - 1] == previous);
            }
            if gap > 0 && gap <= max_gap_micros as i128 {
                add_interval(
                    &mut parts,
                    resolution_micros,
                    previous.valid_time,
                    next.valid_time,
                    previous.value,
                );
                proof {
                    assert forall|s: i64| aligned(s as int, r) implies #[trigger] parts.holds(s)
                        == holds_for(o.take(k + 1), s as int, r, g) by {
                        assert(held_until(
                            previous.valid_time as int,
                            next.valid_time as int,
                            s as int,
                            s + r,
                        ) == clipped(previous, next, s as int, s + r, g));
                    }
                }
            } else {
                proof {
                    assert forall|s: i64| aligned(s as int, r) implies #[trigger] parts.holds(s)
                        == holds_for(o.take(k + 1), s as int, r, g) by {
                        assert(clipped(previous, next, s as int, s + r, g) == 0);
                    }
                }
            }
            k = k + 1;
        }
        assert(o.take(o.len() as int) =~= o);
        let ghost done = parts;
        let buckets = parts.into_buckets();
        proof {
            assert forall|j: int| 0 <= j < buckets@.len() implies {
                let bucket = #[trigger] buckets@[j];
                &&& aligned(bucket.start as int, r)
                &&& bucket.end == bucket.start + r
                &&& bucket.samples@ == samples_for(o, bucket.start as int, r)
                &&& bucket.holds@ == holds_for(o, bucket.start as int, r, g)
                &&& has_parts(o, bucket.start as int, r, g)
            } by {
                let s = buckets@[j].start;
                assert(done.buckets().contains_key(s));
                assert(done.samples(s) == buckets@[j].samples@);
                assert(done.holds(s) == buckets@[j].holds@);
            }
            assert forall|s: i64| aligned(s as int, r) && has_parts(
                o,
                s as int,
                r,
                g,
            ) implies #[trigger] listed(buckets@, s) by {
                assert(done.samples(s) == samples_for(o, s as int, r));
                assert(done.holds(s) == holds_for(o, s as int, r, g));
                assert(done.buckets().contains_key(s));
            }
        }
        let rollup = FixedGaugeRollup { resolution_micros, buckets };
        proof {
            assert(rolled_up(rollup.list(), o, resolution_micros, max_gap_micros));
            assert(rollup_of(rollup.list(), points@, resolution_micros, max_gap_micros));
        }
        Ok(rollup)
    }

    pub fn resolution_micros(&self) -> (resolution: i64)
        ensures
            resolution == self.resolution(),
    {
        self.resolution_micros
    }

    /// The buckets in order of time.
    pub fn buckets(&self) -> (buckets: &[BucketParts])
        ensures
            buckets@ == self.list(),
    {
        self.buckets.as_slice()
    }

    /// The buckets that start before `end`, from the one that holds `start`.
    pub fn range(&self, start: i64, end: i64) -> (found: &[BucketParts])
        requires
            self.ok(),
            i64::MIN <= bucket_floor(start as int, self.resolution() as int) <= end,
        ensures
            exists|from: int, to: int|
                #![trigger self.list().subrange(from, to)]
                {
                    &&& 0 <= from <= to <= self.list().len()
                    &&& found@ == self.list().subrange(from, to)
                    &&& forall|i: int|
                        0 <= i < self.list().len() ==> (from <= i < to <==> bucket_floor(
                            start as int,
                            self.resolution() as int,
                        ) <= (#[trigger] self.list()[i]).start < end)
                },
    {
        let first: i64 = bucket_start(start, self.resolution_micros);
        let total: usize = self.buckets.len();
        let mut from: usize = 0;
        while from < total && self.buckets[from].start < first
            invariant
                from <= total,
                total == self.buckets@.len(),
                forall|i: int| 0 <= i < from ==> (#[trigger] self.buckets@[i]).start < first,
            decreases total - from,
        {
            from = from + 1;
        }
        let mut to: usize = from;
        while to < total && self.buckets[to].start < end
            invariant
                from <= to <= total,
                total == self.buckets@.len(),
                forall|i: int| from <= i < to ==> (#[trigger] self.buckets@[i]).start < end,
            decreases total - to,
        {
            to = to + 1;
        }
        let found = vstd::slice::slice_subrange(self.buckets.as_slice(), from, to);
        proof {
            let list = self.list();
            assert forall|i: int| 0 <= i < list.len() implies (from <= i < to <==> first <= (
            #[trigger] list[i]).start < end) by {
                if from < list.len() && from < i {
                    assert(list[from as int].start < list[i].start);
                }
                if to < list.len() && to < i {
                    assert(list[to as int].start < list[i].start);
                }
            }
            assert(found@ == list.subrange(from as int, to as int));
        }
        found
    }
}

/// Adds the value that held from `from` to `to` to the buckets that it reaches into.
fn add_interval(parts: &mut RollupParts, resolution: i64, from: i64, to: i64, value: FloatBits)
    requires
        resolution > 0,
        from < to,
        to - from <= i64::MAX,
        bucket_fits(from, resolution),
        bucket_fits(to, resolution),
        buckets_ok(*old(parts), resolution as int),
    ensures
        buckets_ok(*final(parts), resolution as int),
        forall|s: i64| #[trigger] final(parts).samples(s) == old(parts).samples(s),
        forall|s: i64|
            aligned(s as int, resolution as int) ==> #[trigger] final(parts).holds(s) == held(
                old(parts).holds(s),
                value,
                held_until(from as int, to as int, s as int, s + resolution),
            ),
{
    let ghost r = resolution as int;
    let ghost first = *parts;
    let mut start: i64 = from;
    while start < to
        invariant
            resolution > 0,
            r == resolution,
            from <= start <= to,
            to - from <= i64::MAX,
            bucket_fits(from, resolution),
            bucket_fits(to, resolution),
            start == from || start == to || aligned(start as int, r),
            buckets_ok(*parts, r),
            forall|s: i64| #[trigger] parts.samples(s) == first.samples(s),
            forall|s: i64|
                aligned(s as int, r) ==> #[trigger] parts.holds(s) == held(
                    first.holds(s),
                    value,
                    held_until(from as int, start as int, s as int, s + r),
                ),
        decreases to - start,
    {
        proof {
            lemma_fits_between(from, start, to, resolution);
            lemma_floor_aligned(start as int, r);
        }
        let bucket: i64 = bucket_start(start, resolution);
        let bucket_end: i64 = bucket + resolution;
        let ghost before = *parts;
        let ghost here = start;
        let next: i64 = parts.add_piece(bucket, bucket_end, start, to, value);
        proof {
            assert(before.holds(bucket) == held(
                first.holds(bucket),
                value,
                held_until(from as int, here as int, bucket as int, bucket + r),
            ));
            assert forall|s: i64| aligned(s as int, r) implies #[trigger] parts.holds(s) == held(
                first.holds(s),
                value,
                held_until(from as int, next as int, s as int, s + r),
            ) by {
                assert(before.holds(s) == held(
                    first.holds(s),
                    value,
                    held_until(from as int, here as int, s as int, s + r),
                ));
                if s < bucket {
                    lemma_aligned_apart(s as int, bucket as int, r);
                } else if s > bucket {
                    lemma_aligned_apart(bucket as int, s as int, r);
                }
            }
            assert forall|s: i64| #[trigger] parts.buckets().contains_key(s) implies {
                &&& aligned(s as int, r)
                &&& parts.buckets()[s].end == s + r
                &&& parts.samples(s).len() > 0 || parts.holds(s).len() > 0
            } by {
                assert(parts.samples(s) == before.samples(s));
                assert(parts.holds(s) == if s == bucket {
                    before.holds(s).push(Hold { value, micros: (next - here) as i64 })
                } else {
                    before.holds(s)
                });
                if before.buckets().contains_key(s) {
                    assert(before.samples(s).len() > 0 || before.holds(s).len() > 0);
                }
            }
        }
        start = next;
    }
}

/// How long some values held together.
pub open spec fn held_total(holds: Seq<Hold>) -> int
    decreases holds.len(),
{
    if holds.len() == 0 {
        0
    } else {
        held_total(holds.drop_last()) + holds.last().micros
    }
}

/// Whether no value held for less than no time, and all together for no longer than
/// can be stored.
pub open spec fn holds_fit(holds: Seq<Hold>) -> bool {
    &&& forall|i: int| 0 <= i < holds.len() ==> (#[trigger] holds[i]).micros >= 0
    &&& held_total(holds) <= i64::MAX
}

proof fn lemma_held_total_front(holds: Seq<Hold>, n: int)
    requires
        0 <= n <= holds.len(),
        forall|i: int| 0 <= i < holds.len() ==> (#[trigger] holds[i]).micros >= 0,
    ensures
        0 <= held_total(holds.take(n)) <= held_total(holds),
    decreases holds.len(),
{
    if n == holds.len() {
        assert(holds.take(n) =~= holds);
        if n > 0 {
            assert(holds.drop_last().take(n - 1) =~= holds.drop_last());
            lemma_held_total_front(holds.drop_last(), n - 1);
        }
    } else {
        assert(holds.drop_last().take(n) =~= holds.take(n));
        lemma_held_total_front(holds.drop_last(), n);
    }
}

/// The parts of a bucket that are computed with floating point.
#[derive(Clone, Copy, Debug, PartialEq)]
pub struct BucketNumbers {
    pub sum: FloatBits,
    pub min: Option<FloatBits>,
    pub max: Option<FloatBits>,
    pub integral_value_micros: FloatBits,
}

/// A bucket into which nothing fell.
pub open spec fn empty_bucket(start: i64, end: i64) -> GaugeBucket {
    GaugeBucket {
        start,
        end,
        count: 0,
        sum: FloatBits(0),
        min: None,
        max: None,
        first: None,
        last: None,
        integral_value_micros: FloatBits(0),
        covered_micros: 0,
    }
}

/// The closed state of a bucket, around the numbers of its values.
pub open spec fn closed_bucket(parts: BucketParts, numbers: BucketNumbers) -> GaugeBucket {
    GaugeBucket {
        start: parts.start,
        end: parts.end,
        count: parts.samples@.len() as u64,
        sum: numbers.sum,
        min: numbers.min,
        max: numbers.max,
        first: if parts.samples@.len() > 0 {
            Some(parts.samples@[0])
        } else {
            None
        },
        last: if parts.samples@.len() > 0 {
            Some(parts.samples@.last())
        } else {
            None
        },
        integral_value_micros: numbers.integral_value_micros,
        covered_micros: held_total(parts.holds@) as i64,
    }
}

/// Two adjacent buckets as one, around the numbers of both.
pub open spec fn merged_bucket(
    a: GaugeBucket,
    next: GaugeBucket,
    numbers: BucketNumbers,
) -> GaugeBucket {
    GaugeBucket {
        start: a.start,
        end: next.end,
        count: (a.count + next.count) as u64,
        sum: numbers.sum,
        min: numbers.min,
        max: numbers.max,
        first: if a.first is Some {
            a.first
        } else {
            next.first
        },
        last: if next.last is Some {
            next.last
        } else {
            a.last
        },
        integral_value_micros: numbers.integral_value_micros,
        covered_micros: (a.covered_micros + next.covered_micros) as i64,
    }
}

impl GaugeBucket {
    /// A bucket into which nothing fell.
    pub fn empty(start: i64, end: i64) -> (bucket: Self)
        ensures
            bucket == empty_bucket(start, end),
    {
        GaugeBucket {
            start,
            end,
            count: 0,
            sum: FloatBits(0),
            min: None,
            max: None,
            first: None,
            last: None,
            integral_value_micros: FloatBits(0),
            covered_micros: 0,
        }
    }

    /// The closed state of a bucket, around the numbers of its values.
    pub fn from_parts(parts: &BucketParts, numbers: BucketNumbers) -> (bucket: Self)
        requires
            holds_fit(parts.holds@),
        ensures
            bucket == closed_bucket(*parts, numbers),
    {
        let count: usize = parts.samples.len();
        let first = if count > 0 {
            Some(parts.samples[0])
        } else {
            None
        };
        let last = if count > 0 {
            Some(parts.samples[count - 1])
        } else {
            None
        };
        let ghost holds = parts.holds@;
        let mut covered_micros: i64 = 0;
        let mut i: usize = 0;
        while i < parts.holds.len()
            invariant
                i <= holds.len(),
                holds == parts.holds@,
                holds_fit(holds),
                covered_micros == held_total(holds.take(i as int)),
            decreases holds.len() - i,
        {
            proof {
                lemma_held_total_front(holds, i as int);
                lemma_held_total_front(holds, i + 1);
                assert(holds.take(i + 1).drop_last() =~= holds.take(i as int));
            }
            covered_micros = covered_micros + parts.holds[i].micros;
            i = i + 1;
        }
        assert(holds.take(holds.len() as int) =~= holds);
        GaugeBucket {
            start: parts.start,
            end: parts.end,
            count: count as u64,
            sum: numbers.sum,
            min: numbers.min,
            max: numbers.max,
            first,
            last,
            integral_value_micros: numbers.integral_value_micros,
            covered_micros,
        }
    }

    /// Combines adjacent fine buckets into one coarser closed state, around the numbers
    /// of both.
    pub fn merge_exact(self, next: Self, numbers: BucketNumbers) -> (merged: Self)
        requires
            self.end == next.start,
            self.count + next.count <= u64::MAX,
            i64::MIN <= self.covered_micros + next.covered_micros <= i64::MAX,
        ensures
            merged == merged_bucket(self, next, numbers),
    {
        let first = match self.first {
            Some(sample) => Some(sample),
            None => next.first,
        };
        let last = match next.last {
            Some(sample) => Some(sample),
            None => self.last,
        };
        GaugeBucket {
            start: self.start,
            end: next.end,
            count: self.count + next.count,
            sum: numbers.sum,
            min: numbers.min,
            max: numbers.max,
            first,
            last,
            integral_value_micros: numbers.integral_value_micros,
            covered_micros: self.covered_micros + next.covered_micros,
        }
    }
}

// Laws.

/// How much of `s..e` the points cover.
pub open spec fn covered_in(o: Seq<Point>, s: int, e: int, max_gap: int) -> int
    decreases o.len(),
{
    if o.len() <= 1 {
        0
    } else {
        covered_in(o.drop_last(), s, e, max_gap) + clipped(o[o.len() - 2], o.last(), s, e, max_gap)
    }
}

/// How many points lie in `s..e`.
pub open spec fn counted_in(o: Seq<Point>, s: int, e: int) -> nat
    decreases o.len(),
{
    if o.len() == 0 {
        0
    } else {
        counted_in(o.drop_last(), s, e) + if s <= o.last().valid_time < e {
            1nat
        } else {
            0
        }
    }
}

/// What a bucket of a rollup holds is what the points say of its span: it has a sample
/// for each point in it, and its holds last as long as the points cover it.
pub proof fn buckets_hold_their_span(o: Seq<Point>, s: i64, resolution: i64, max_gap: i64)
    requires
        resolution > 0,
        max_gap >= 0,
        aligned(s as int, resolution as int),
    ensures
        samples_for(o, s as int, resolution as int).len() == counted_in(
            o,
            s as int,
            s + resolution,
        ),
        held_total(holds_for(o, s as int, resolution as int, max_gap as int)) == covered_in(
            o,
            s as int,
            s + resolution,
            max_gap as int,
        ),
    decreases o.len(),
{
    let r = resolution as int;
    let g = max_gap as int;
    if o.len() > 0 {
        buckets_hold_their_span(o.drop_last(), s, resolution, max_gap);
        let t = o.last().valid_time as int;
        lemma_floor_aligned(t, r);
        if s < bucket_floor(t, r) {
            lemma_aligned_apart(s as int, bucket_floor(t, r), r);
        } else if bucket_floor(t, r) < s {
            lemma_aligned_apart(bucket_floor(t, r), s as int, r);
        }
        if o.len() > 1 {
            let front = holds_for(o.drop_last(), s as int, r, g);
            let previous = o[o.len() - 2];
            let micros = clipped(previous, o.last(), s as int, s + r, g);
            assert(o.drop_last()[o.len() - 2] == previous);
            assert(0 <= micros <= r);
            let hold = Hold { value: previous.value, micros: micros as i64 };
            assert(front.push(hold).drop_last() =~= front);
        }
    }
}

/// Spans add up: adjacent buckets together count and cover what one bucket over both
/// spans does. So coarser levels follow from finer ones without the points.
pub proof fn adjacent_spans_add_up(o: Seq<Point>, s: int, m: int, e: int, max_gap: int)
    requires
        s <= m <= e,
    ensures
        counted_in(o, s, m) + counted_in(o, m, e) == counted_in(o, s, e),
        covered_in(o, s, m, max_gap) + covered_in(o, m, e, max_gap) == covered_in(o, s, e, max_gap),
    decreases o.len(),
{
    if o.len() > 0 {
        adjacent_spans_add_up(o.drop_last(), s, m, e, max_gap);
    }
}

/// Points in order of time never cover more of a span than it has, and nothing of it is
/// covered twice.
pub proof fn coverage_is_bounded(o: Seq<Point>, s: int, e: int, max_gap: int)
    requires
        s <= e,
        forall|i: int, j: int|
            #![trigger o[i], o[j]]
            0 <= i < j < o.len() ==> o[i].valid_time <= o[j].valid_time,
    ensures
        0 <= covered_in(o, s, e, max_gap) <= e - s,
        o.len() > 0 && o.last().valid_time <= s ==> covered_in(o, s, e, max_gap) == 0,
        o.len() > 0 && s <= o.last().valid_time <= e ==> covered_in(o, s, e, max_gap)
            <= o.last().valid_time - s,
    decreases o.len(),
{
    if o.len() > 1 {
        let front = o.drop_last();
        assert forall|i: int, j: int|
            #![trigger front[i], front[j]]
            0 <= i < j < front.len() implies front[i].valid_time <= front[j].valid_time by {
            assert(o[i].valid_time <= o[j].valid_time);
        }
        coverage_is_bounded(front, s, e, max_gap);
        assert(front.last() == o[o.len() - 2]);
        assert(o[o.len() - 2].valid_time <= o[o.len() - 1].valid_time);
    }
}

/// A gap longer than the maximum is not covered.
pub proof fn long_gaps_are_not_covered(o: Seq<Point>, s: int, e: int, max_gap: int)
    requires
        o.len() > 1,
        o.last().valid_time - o[o.len() - 2].valid_time > max_gap,
    ensures
        covered_in(o, s, e, max_gap) == covered_in(o.drop_last(), s, e, max_gap),
{
}

/// A time falls into a bucket where it lies between its edges.
pub proof fn lemma_in_bucket(time: int, s: int, resolution: int)
    requires
        resolution > 0,
        aligned(s, resolution),
    ensures
        bucket_floor(time, resolution) == s <==> s <= time < s + resolution,
{
    lemma_floor_aligned(time, resolution);
    if s < bucket_floor(time, resolution) {
        lemma_aligned_apart(s, bucket_floor(time, resolution), resolution);
    } else if bucket_floor(time, resolution) < s {
        lemma_aligned_apart(bucket_floor(time, resolution), s, resolution);
    }
}

/// The halves of a bucket of twice the resolution are buckets.
proof fn lemma_halves(s: int, resolution: int)
    requires
        resolution > 0,
        aligned(s, 2 * resolution),
    ensures
        aligned(s, resolution),
        aligned(s + resolution, resolution),
{
    let q = s / (2 * resolution);
    assert(s == (2 * q) * resolution + 0) by (nonlinear_arith)
        requires
            s == (2 * resolution) * q,
    ;
    lemma_fundamental_div_mod_converse(s, resolution, 2 * q, 0);
    assert(s + resolution == (2 * q + 1) * resolution + 0) by (nonlinear_arith)
        requires
            s == (2 * q) * resolution + 0,
    ;
    lemma_fundamental_div_mod_converse(s + resolution, resolution, 2 * q + 1, 0);
    assert(resolution * (2 * q) == (2 * q) * resolution) by (nonlinear_arith);
    assert(resolution * (2 * q + 1) == (2 * q + 1) * resolution) by (nonlinear_arith);
}

/// Whether points stand in order of time.
pub open spec fn times_ascend(o: Seq<Point>) -> bool {
    forall|i: int, j: int|
        #![trigger o[i], o[j]]
        0 <= i < j < o.len() ==> o[i].valid_time <= o[j].valid_time
}

/// Points in order of time fall into the halves of a bucket one after the other.
proof fn lemma_samples_in_halves(o: Seq<Point>, s: int, resolution: int)
    requires
        resolution > 0,
        aligned(s, 2 * resolution),
        times_ascend(o),
    ensures
        samples_for(o, s, 2 * resolution) == samples_for(o, s, resolution) + samples_for(
            o,
            s + resolution,
            resolution,
        ),
        o.len() > 0 && o.last().valid_time < s + resolution ==> samples_for(
            o,
            s + resolution,
            resolution,
        ).len() == 0,
    decreases o.len(),
{
    lemma_halves(s, resolution);
    if o.len() > 0 {
        let front = o.drop_last();
        let t = o.last().valid_time as int;
        assert(times_ascend(front)) by {
            assert forall|i: int, j: int|
                #![trigger front[i], front[j]]
                0 <= i < j < front.len() implies front[i].valid_time <= front[j].valid_time by {
                assert(o[i].valid_time <= o[j].valid_time);
            }
        }
        lemma_samples_in_halves(front, s, resolution);
        lemma_in_bucket(t, s, 2 * resolution);
        lemma_in_bucket(t, s, resolution);
        lemma_in_bucket(t, s + resolution, resolution);
        if front.len() > 0 {
            assert(o[o.len() - 2].valid_time <= o[o.len() - 1].valid_time);
            assert(front.last() == o[o.len() - 2]);
        }
    }
    assert(samples_for(o, s, 2 * resolution) =~= samples_for(o, s, resolution) + samples_for(
        o,
        s + resolution,
        resolution,
    ));
}

/// Points in storage order that carry nothing but time and value are in order of time.
proof fn lemma_plain_times_ascend(o: Seq<Point>, points: Seq<Point>)
    requires
        stored_order(o, plain_points(points)),
    ensures
        times_ascend(o),
{
    let p = plain_points(points);
    assert forall|i: int| 0 <= i < o.len() implies (#[trigger] o[i]).series_id == 0 by {
        assert(o.contains(o[i]));
        lemma_with_key_contains(o, o[i], o[i]);
        assert(with_key(o, o[i]) == with_key(p, o[i]));
        lemma_with_key_contains(p, o[i], o[i]);
        let j = choose|j: int| 0 <= j < p.len() && p[j] == o[i];
    }
    assert forall|i: int, j: int|
        #![trigger o[i], o[j]]
        0 <= i < j < o.len() implies o[i].valid_time <= o[j].valid_time by {
        assert(!key_less(o[j], o[i]));
        assert(o[i].series_id == 0 && o[j].series_id == 0);
    }
}

/// The bucket of a rollup at `s`, or an empty one where nothing fell into it.
pub open spec fn bucket_or_empty(
    list: Seq<BucketParts>,
    s: i64,
    e: i64,
    numbers: BucketNumbers,
) -> GaugeBucket {
    if listed(list, s) {
        closed_bucket(
            list[choose|i: int| 0 <= i < list.len() && (#[trigger] list[i]).start == s],
            numbers,
        )
    } else {
        empty_bucket(s, e)
    }
}

/// What a bucket of a rollup says, whether something fell into it or not.
proof fn lemma_bucket_or_empty(
    list: Seq<BucketParts>,
    o: Seq<Point>,
    s: i64,
    resolution: i64,
    max_gap: i64,
    numbers: BucketNumbers,
)
    requires
        resolution > 0,
        max_gap >= 0,
        s + resolution <= i64::MAX,
        aligned(s as int, resolution as int),
        rolled_up(list, o, resolution, max_gap),
        times_ascend(o),
        o.len() <= u64::MAX,
    ensures
        ({
            let bucket = bucket_or_empty(list, s, (s + resolution) as i64, numbers);
            let samples = samples_for(o, s as int, resolution as int);
            &&& bucket.start == s
            &&& bucket.end == s + resolution
            &&& bucket.count == samples.len()
            &&& bucket.first == if samples.len() > 0 {
                Some(samples[0])
            } else {
                None
            }
            &&& bucket.last == if samples.len() > 0 {
                Some(samples.last())
            } else {
                None
            }
            &&& bucket.covered_micros == covered_in(
                o,
                s as int,
                s + resolution,
                max_gap as int,
            )
        }),
{
    let r = resolution as int;
    let g = max_gap as int;
    buckets_hold_their_span(o, s, resolution, max_gap);
    coverage_is_bounded(o, s as int, s + r, g);
    lemma_counted_bounded(o, s as int, s + r);
    if listed(list, s) {
        let i = choose|i: int| 0 <= i < list.len() && (#[trigger] list[i]).start == s;
        assert(list[i].samples@ == samples_for(o, s as int, r));
    } else {
        assert(!has_parts(o, s as int, r, g));
    }
}

proof fn lemma_counted_bounded(o: Seq<Point>, s: int, e: int)
    ensures
        counted_in(o, s, e) <= o.len(),
    decreases o.len(),
{
    if o.len() > 0 {
        lemma_counted_bounded(o.drop_last(), s, e);
    }
}

/// Two adjacent buckets merge into the bucket of twice the resolution: no sample and no
/// covered time is invented or lost between them. What is computed with floating point is
/// handed in.
pub proof fn halves_merge_into_the_whole(
    points: Seq<Point>,
    resolution: i64,
    max_gap: i64,
    fine: Seq<BucketParts>,
    coarse: Seq<BucketParts>,
    i: int,
    left: BucketNumbers,
    right: BucketNumbers,
    numbers: BucketNumbers,
)
    requires
        0 < resolution,
        2 * resolution <= i64::MAX,
        max_gap >= 0,
        points.len() <= u64::MAX,
        rollup_of(fine, points, resolution, max_gap),
        rollup_of(coarse, points, (2 * resolution) as i64, max_gap),
        0 <= i < coarse.len(),
    ensures
        ({
            let s = coarse[i].start;
            let m = (s + resolution) as i64;
            merged_bucket(
                bucket_or_empty(fine, s, m, left),
                bucket_or_empty(fine, m, coarse[i].end, right),
                numbers,
            ) == closed_bucket(coarse[i], numbers)
        }),
{
    let r = resolution as int;
    let g = max_gap as int;
    let wide = (2 * resolution) as i64;
    let a = choose|o: Seq<Point>|
        stored_order(o, plain_points(points)) && #[trigger] rolled_up(fine, o, resolution, max_gap);
    let o = choose|o: Seq<Point>|
        stored_order(o, plain_points(points)) && #[trigger] rolled_up(coarse, o, wide, max_gap);
    assert forall|x: Point| #[trigger] with_key(a, x) == with_key(o, x) by {
        assert(with_key(a, x) == with_key(plain_points(points), x));
        assert(with_key(o, x) == with_key(plain_points(points), x));
    }
    storage_order_is_unique(a, o);
    lemma_plain_times_ascend(o, points);
    let s = coarse[i].start;
    let m = (s + resolution) as i64;
    assert(aligned(s as int, 2 * r));
    assert(coarse[i].end == s + wide);
    lemma_halves(s as int, r);
    lemma_samples_in_halves(o, s as int, r);
    lemma_bucket_or_empty(fine, o, s, resolution, max_gap, left);
    lemma_bucket_or_empty(fine, o, m, resolution, max_gap, right);
    buckets_hold_their_span(o, s, wide, max_gap);
    coverage_is_bounded(o, s as int, s + 2 * r, g);
    adjacent_spans_add_up(o, s as int, s + r, s + 2 * r, g);
    lemma_counted_bounded(o, s as int, s + 2 * r);
}

/// How long the values of points held: from each to the next, unless the gap between
/// them is longer than the maximum.
pub open spec fn bridged_total(o: Seq<Point>, max_gap: int) -> int
    decreases o.len(),
{
    if o.len() <= 1 {
        0
    } else {
        let gap = o.last().valid_time - o[o.len() - 2].valid_time;
        bridged_total(o.drop_last(), max_gap) + if 0 < gap <= max_gap {
            gap
        } else {
            0
        }
    }
}

/// How long the values in the first `n` buckets held together.
pub open spec fn covered_total(list: Seq<BucketParts>, n: nat) -> int
    decreases n,
{
    if n == 0 {
        0
    } else {
        covered_total(list, (n - 1) as nat) + held_total(list[n - 1].holds@)
    }
}

/// How many samples the first `n` buckets hold together.
pub open spec fn samples_total(list: Seq<BucketParts>, n: nat) -> nat
    decreases n,
{
    if n == 0 {
        0
    } else {
        samples_total(list, (n - 1) as nat) + list[n - 1].samples@.len()
    }
}

/// Points that all lie on one side of a span say nothing of it.
proof fn lemma_outside(o: Seq<Point>, s: int, e: int, max_gap: int)
    requires
        s <= e,
        (forall|i: int| 0 <= i < o.len() ==> (#[trigger] o[i]).valid_time >= e) || (forall|i: int|
            0 <= i < o.len() ==> (#[trigger] o[i]).valid_time < s),
    ensures
        covered_in(o, s, e, max_gap) == 0,
        counted_in(o, s, e) == 0,
    decreases o.len(),
{
    if o.len() > 0 {
        let front = o.drop_last();
        assert(forall|i: int| 0 <= i < front.len() ==> #[trigger] front[i] == o[i]);
        lemma_outside(front, s, e, max_gap);
        assert(o[o.len() - 1] == o.last());
    }
}

/// A span around all points is covered wherever they bridge their gaps.
proof fn lemma_around(o: Seq<Point>, s: int, e: int, max_gap: int)
    requires
        forall|i: int| 0 <= i < o.len() ==> s <= (#[trigger] o[i]).valid_time < e,
    ensures
        covered_in(o, s, e, max_gap) == bridged_total(o, max_gap),
        counted_in(o, s, e) == o.len(),
    decreases o.len(),
{
    if o.len() > 0 {
        let front = o.drop_last();
        assert(forall|i: int| 0 <= i < front.len() ==> #[trigger] front[i] == o[i]);
        lemma_around(front, s, e, max_gap);
        assert(o[o.len() - 1] == o.last());
    }
}

/// What lies between buckets that are listed is empty.
proof fn lemma_unlisted(
    list: Seq<BucketParts>,
    o: Seq<Point>,
    a: int,
    b: int,
    resolution: i64,
    max_gap: i64,
)
    requires
        resolution > 0,
        max_gap >= 0,
        rolled_up(list, o, resolution, max_gap),
        i64::MIN <= a <= b <= i64::MAX,
        aligned(a, resolution as int),
        aligned(b, resolution as int),
        forall|i: int| 0 <= i < list.len() ==> !(a <= (#[trigger] list[i]).start < b),
    ensures
        covered_in(o, a, b, max_gap as int) == 0,
        counted_in(o, a, b) == 0,
    decreases b - a,
{
    let r = resolution as int;
    let g = max_gap as int;
    if a == b {
        adjacent_spans_add_up(o, a, a, a, g);
    } else {
        lemma_aligned_apart(a, b, r);
        let s = a as i64;
        if has_parts(o, a, r, g) {
            assert(listed(list, s));
        }
        buckets_hold_their_span(o, s, resolution, max_gap);
        lemma_floor_aligned(a, r);
        lemma_unlisted(list, o, a + r, b, resolution, max_gap);
        adjacent_spans_add_up(o, a, a + r, b, g);
    }
}

/// The first buckets together hold what the points say of the span up to their end.
proof fn lemma_spans_of_buckets(
    list: Seq<BucketParts>,
    o: Seq<Point>,
    a: int,
    n: nat,
    resolution: i64,
    max_gap: i64,
)
    requires
        resolution > 0,
        max_gap >= 0,
        rolled_up(list, o, resolution, max_gap),
        i64::MIN <= a <= i64::MAX,
        aligned(a, resolution as int),
        forall|i: int| 0 <= i < list.len() ==> a <= (#[trigger] list[i]).start,
        n <= list.len(),
    ensures
        ({
            let b = if n == 0 {
                a
            } else {
                list[n - 1].end as int
            };
            &&& a <= b
            &&& aligned(b, resolution as int)
            &&& covered_in(o, a, b, max_gap as int) == covered_total(list, n)
            &&& counted_in(o, a, b) == samples_total(list, n)
        }),
    decreases n,
{
    let r = resolution as int;
    let g = max_gap as int;
    if n == 0 {
        adjacent_spans_add_up(o, a, a, a, g);
    } else {
        lemma_spans_of_buckets(list, o, a, (n - 1) as nat, resolution, max_gap);
        let bucket = list[n - 1];
        let s = bucket.start as int;
        let b = if n == 1 {
            a
        } else {
            list[n - 2].end as int
        };
        if n > 1 {
            assert(list[n - 2].start < bucket.start);
            lemma_aligned_apart(list[n - 2].start as int, s, r);
        }
        assert forall|i: int| 0 <= i < list.len() implies !(b <= (#[trigger] list[i]).start < s) by {
            if i < n - 2 {
                assert(list[i].start < list[n - 2].start);
            } else if i > n - 1 {
                assert(list[n - 1].start < list[i].start);
            }
        }
        lemma_unlisted(list, o, b, s, resolution, max_gap);
        buckets_hold_their_span(o, bucket.start, resolution, max_gap);
        adjacent_spans_add_up(o, a, b, s, g);
        adjacent_spans_add_up(o, a, s, s + r, g);
        lemma_floor_aligned(s, r);
    }
}

/// The buckets of a fixed rollup hold each point once, and cover the time between points
/// for exactly as long as the points say: nothing is lost at the edges of the buckets, and
/// nothing counts twice.
pub proof fn fixed_rollups_keep_all_time(
    list: Seq<BucketParts>,
    points: Seq<Point>,
    o: Seq<Point>,
    resolution: i64,
    max_gap: i64,
)
    requires
        resolution > 0,
        max_gap >= 0,
        stored_order(o, plain_points(points)),
        rolled_up(list, o, resolution, max_gap),
        forall|i: int| 0 <= i < o.len() ==> bucket_fits((#[trigger] o[i]).valid_time, resolution),
    ensures
        covered_total(list, list.len()) == bridged_total(o, max_gap as int),
        samples_total(list, list.len()) == o.len(),
{
    let r = resolution as int;
    let g = max_gap as int;
    lemma_plain_times_ascend(o, points);
    if o.len() == 0 {
        if list.len() > 0 {
            assert(has_parts(o, list[0].start as int, r, g));
        }
    } else {
        let first = o[0].valid_time as int;
        let last = o[o.len() - 1].valid_time as int;
        let a = bucket_floor(first, r);
        let z = bucket_floor(last, r);
        let e = z + r;
        lemma_floor_aligned(first, r);
        lemma_floor_aligned(last, r);
        lemma_floor_aligned(z, r);
        assert(bucket_fits(o[0].valid_time, resolution));
        assert(bucket_fits(o[o.len() - 1].valid_time, resolution));
        assert forall|i: int| 0 <= i < o.len() implies a <= (#[trigger] o[i]).valid_time < e by {
            if i > 0 {
                assert(o[0].valid_time <= o[i].valid_time);
            }
            if i < o.len() - 1 {
                assert(o[i].valid_time <= o[o.len() - 1].valid_time);
            }
        }
        assert forall|i: int| 0 <= i < list.len() implies a <= (#[trigger] list[i]).start && list[i].end
            <= e by {
            let s = list[i].start as int;
            assert(has_parts(o, s, r, g));
            buckets_hold_their_span(o, list[i].start, resolution, max_gap);
            if s < a {
                lemma_aligned_apart(s, a, r);
                lemma_outside(o, s, s + r, g);
                lemma_nothing_held(holds_for(o, s, r, g), o, s, r, g);
            } else if s + r > e {
                if s < e {
                    lemma_aligned_apart(s, e, r);
                }
                lemma_outside(o, s, s + r, g);
                lemma_nothing_held(holds_for(o, s, r, g), o, s, r, g);
            }
        }
        lemma_spans_of_buckets(list, o, a, list.len(), resolution, max_gap);
        let b = if list.len() == 0 {
            a
        } else {
            list[list.len() - 1].end as int
        };
        assert forall|i: int| 0 <= i < list.len() implies !(b <= (#[trigger] list[i]).start < e) by {
            if i < list.len() - 1 {
                assert(list[i].start < list[list.len() - 1].start);
            }
        }
        lemma_unlisted(list, o, b, e, resolution, max_gap);
        adjacent_spans_add_up(o, a, b, e, g);
        lemma_around(o, a, e, g);
    }
}

/// Values that held for no time together are no values.
proof fn lemma_nothing_held(holds: Seq<Hold>, o: Seq<Point>, s: int, resolution: int, max_gap: int)
    requires
        resolution <= i64::MAX,
        holds == holds_for(o, s, resolution, max_gap),
    ensures
        holds.len() > 0 ==> held_total(holds) > 0,
        held_total(holds) >= 0,
    decreases o.len(),
{
    if o.len() > 1 {
        let front = holds_for(o.drop_last(), s, resolution, max_gap);
        lemma_nothing_held(front, o.drop_last(), s, resolution, max_gap);
        let previous = o[o.len() - 2];
        let micros = clipped(previous, o.last(), s, s + resolution, max_gap);
        if micros > 0 {
            assert(holds.drop_last() =~= front);
        }
    }
}

} // verus!
