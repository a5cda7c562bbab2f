//! Rollups whose buckets are local days, months or years.
//!
//! The stored edges are UTC microseconds, so that days of 23 and 25 hours and months of
//! variable length keep their true duration.
#[allow(unused_imports)]
use crate::error::invalid_model;
use crate::error::Error;
use crate::model::{CalendarUnit, FloatBits, Point, RollupResolution};
#[allow(unused_imports)]
use crate::model::ResolutionModel;
#[allow(unused_imports)]
use crate::point_sort::stored_order;
use crate::rollup::{in_time_order, BucketParts, RollupParts, Sample};
#[allow(unused_imports)]
use crate::rollup::{ascending_starts, listed, plain_points, Hold};
use vstd::prelude::*;
use vstd::string::*;

verus! {

/// `jiff::Zoned`: an instant with a time zone.
#[verifier::external_type_specification]
#[verifier::external_body]
pub struct ExZoned(jiff::Zoned);

/// `jiff::Timestamp::from_microsecond` and `jiff::Timestamp::in_tz`: the instant in a
/// zone of the time zone database. The database belongs to the machine, so nothing is
/// said of the result. An error is given as its text.
#[verifier::external_body]
fn zoned_at(micros: i64, timezone: &str) -> (zoned: Result<jiff::Zoned, String>) {
    jiff::Timestamp::from_microsecond(micros)
        .and_then(|timestamp| timestamp.in_tz(timezone))
        .map_err(|error| error.to_string())
}

/// `jiff::Zoned::start_of_day`. It follows the zone's rules, of which nothing is said.
#[verifier::external_body]
fn start_of_day(zoned: &jiff::Zoned) -> (start: Result<jiff::Zoned, String>) {
    zoned.start_of_day().map_err(|error| error.to_string())
}

/// `jiff::Zoned::first_of_month`. It follows the zone's rules, of which nothing is said.
#[verifier::external_body]
fn first_of_month(zoned: &jiff::Zoned) -> (first: Result<jiff::Zoned, String>) {
    zoned.first_of_month().map_err(|error| error.to_string())
}

/// `jiff::Zoned::first_of_year`. It follows the zone's rules, of which nothing is said.
#[verifier::external_body]
fn first_of_year(zoned: &jiff::Zoned) -> (first: Result<jiff::Zoned, String>) {
    zoned.first_of_year().map_err(|error| error.to_string())
}

/// `jiff::Zoned::checked_add` of days, months and years. It follows the zone's rules, of
/// which nothing is said.
#[verifier::external_body]
fn later_by(zoned: &jiff::Zoned, days: i64, months: i64, years: i64) -> (later: Result<
    jiff::Zoned,
    String,
>)
    requires
        0 <= days <= 1,
        0 <= months <= 1,
        0 <= years <= 1,
{
    let span = jiff::Span::new().days(days).months(months).years(years);
    zoned.checked_add(span).map_err(|error| error.to_string())
}

/// `jiff::Timestamp::as_microsecond` of the instant. What it is depends on how the
/// instant was found, of which nothing is said.
#[verifier::external_body]
fn micros_of(zoned: &jiff::Zoned) -> (micros: i64) {
    zoned.timestamp().as_microsecond()
}

/// Whether an error says that a calendar rollup is invalid.
pub open spec fn calendar_fault(error: Error) -> bool {
    error matches Error::InvalidModel(text) && text@.len() >= "invalid calendar rollup: "@.len()
        && text@.take("invalid calendar rollup: "@.len() as int) == "invalid calendar rollup: "@
}

fn calendar_error(reason: String) -> (error: Error)
    ensures
        calendar_fault(error),
        error matches Error::InvalidModel(text) && text@ == "invalid calendar rollup: "@ + reason@,
{
    let mut text = "invalid calendar rollup: ".to_owned();
    text.append(reason.as_str());
    assert(text@.take("invalid calendar rollup: "@.len() as int)
        =~= "invalid calendar rollup: "@);
    Error::InvalidModel(text)
}

/// The day on which a bucket begins, seen from a day in it.
#[derive(Debug, Clone, Copy, PartialEq, Eq)]
pub enum FirstDay {
    Same,
    OfMonth,
    OfYear,
}

/// How the edges of a bucket are found: its first day, and how much later than the start
/// of that day the bucket ends.
#[derive(Debug, Clone, Copy, PartialEq, Eq)]
pub struct CalendarStep {
    pub first: FirstDay,
    pub days: i64,
    pub months: i64,
    pub years: i64,
}

/// A bucket is one day, month or year of the calendar.
pub open spec fn step_of(unit: CalendarUnit) -> CalendarStep {
    match unit {
        CalendarUnit::Day => CalendarStep { first: FirstDay::Same, days: 1, months: 0, years: 0 },
        CalendarUnit::Month => CalendarStep {
            first: FirstDay::OfMonth,
            days: 0,
            months: 1,
            years: 0,
        },
        CalendarUnit::Year => CalendarStep {
            first: FirstDay::OfYear,
            days: 0,
            months: 0,
            years: 1,
        },
    }
}

/// How the edges of the buckets of a unit are found.
pub fn calendar_step(unit: CalendarUnit) -> (step: CalendarStep)
    ensures
        step == step_of(unit),
{
    match unit {
        CalendarUnit::Day => CalendarStep { first: FirstDay::Same, days: 1, months: 0, years: 0 },
        CalendarUnit::Month => CalendarStep {
            first: FirstDay::OfMonth,
            days: 0,
            months: 1,
            years: 0,
        },
        CalendarUnit::Year => CalendarStep {
            first: FirstDay::OfYear,
            days: 0,
            months: 0,
            years: 1,
        },
    }
}

/// The edges of the local bucket that holds a time, as the calendar gives them.
fn local_edges(timestamp_micros: i64, step: CalendarStep, timezone: &str) -> (edges: Result<
    (i64, i64),
    String,
>)
    requires
        0 <= step.days <= 1,
        0 <= step.months <= 1,
        0 <= step.years <= 1,
{
    let zoned = match zoned_at(timestamp_micros, timezone) {
        Ok(zoned) => zoned,
        Err(reason) => {
            return Err(reason);
        },
    };
    let first = match step.first {
        FirstDay::Same => Ok(zoned),
        FirstDay::OfMonth => first_of_month(&zoned),
        FirstDay::OfYear => first_of_year(&zoned),
    };
    let first = match first {
        Ok(first) => first,
        Err(reason) => {
            return Err(reason);
        },
    };
    let start = match start_of_day(&first) {
        Ok(start) => start,
        Err(reason) => {
            return Err(reason);
        },
    };
    match later_by(&start, step.days, step.months, step.years) {
        Ok(end) => Ok((micros_of(&start), micros_of(&end))),
        Err(reason) => Err(reason),
    }
}

/// Whether a time lies between the edges of a bucket.
pub open spec fn holds_time(bucket: (i64, i64), time: int) -> bool {
    bucket.0 <= time < bucket.1
}

/// The edges that the calendar gave for a time, or why it gave none. Edges between which
/// the time does not lie are refused.
pub fn edges_or_fault(timestamp_micros: i64, edges: Result<(i64, i64), String>) -> (bounds: Result<
    (i64, i64),
    Error,
>)
    ensures
        match edges {
            Ok(edges) => if holds_time(edges, timestamp_micros as int) {
                bounds == Ok::<(i64, i64), Error>(edges)
            } else {
                bounds matches Err(error) && calendar_fault(error) && invalid_model(
                    error,
                    "invalid calendar rollup: the bucket does not hold its time"@,
                )
            },
            Err(reason) => bounds matches Err(error) && calendar_fault(error) && invalid_model(
                error,
                "invalid calendar rollup: "@ + reason@,
            ),
        },
{
    match edges {
        Ok(edges) => if edges.0 <= timestamp_micros && timestamp_micros < edges.1 {
            Ok(edges)
        } else {
            proof {
                reveal_strlit("invalid calendar rollup: ");
                reveal_strlit("the bucket does not hold its time");
                reveal_strlit("invalid calendar rollup: the bucket does not hold its time");
                assert("invalid calendar rollup: "@ + "the bucket does not hold its time"@
                    =~= "invalid calendar rollup: the bucket does not hold its time"@);
            }
            Err(calendar_error("the bucket does not hold its time".to_owned()))
        },
        Err(reason) => Err(calendar_error(reason)),
    }
}

/// The edges of the local day, month or year that holds a time. Where they lie is the
/// time zone database's to say, but the time lies between them.
pub fn calendar_bucket_bounds(timestamp_micros: i64, unit: CalendarUnit, timezone: &str) -> (bounds:
    Result<(i64, i64), Error>)
    ensures
        match bounds {
            Ok(edges) => holds_time(edges, timestamp_micros as int),
            Err(error) => calendar_fault(error),
        },
{
    edges_or_fault(timestamp_micros, local_edges(timestamp_micros, calendar_step(unit), timezone))
}

/// A part of a hold, and the bucket in which it lies.
pub struct Piece {
    pub bucket: i64,
    pub bucket_end: i64,
    pub hold: Hold,
}

/// The pieces of a value that held from `from` to `to`, with what is left of the buckets
/// found. A bucket is found for the time at which a piece begins, and the piece lasts up
/// to the end of that bucket. Buckets that are too few, or that do not hold their time,
/// give no pieces.
pub open spec fn hold_pieces(
    from: int,
    to: int,
    value: FloatBits,
    found: Seq<(i64, i64)>,
) -> Option<(Seq<Piece>, Seq<(i64, i64)>)>
    decreases found.len(),
{
    if from >= to {
        Some((Seq::empty(), found))
    } else if found.len() == 0 || !holds_time(found[0], from) {
        None
    } else {
        let (bucket, bucket_end) = found[0];
        let next = if to < bucket_end {
            to
        } else {
            bucket_end as int
        };
        let piece = Piece { bucket, bucket_end, hold: Hold { value, micros: (next - from) as i64 } };
        match hold_pieces(next, to, value, found.skip(1)) {
            None => None,
            Some((rest, left)) => Some((seq![piece] + rest, left)),
        }
    }
}

/// Whether the value of a point holds up to the next.
pub open spec fn holds_on(o: Seq<Point>, i: int, max_gap: int) -> bool {
    0 < o[i + 1].valid_time - o[i].valid_time <= max_gap
}

/// The pieces of the values of all points from the one at `i` on, where `found` are the
/// buckets found for them, and no more.
pub open spec fn all_pieces(
    o: Seq<Point>,
    i: int,
    max_gap: int,
    found: Seq<(i64, i64)>,
) -> Option<Seq<Piece>>
    decreases o.len() - i,
{
    if i + 1 >= o.len() {
        if found.len() == 0 {
            Some(Seq::empty())
        } else {
            None
        }
    } else if holds_on(o, i, max_gap) {
        match hold_pieces(
            o[i].valid_time as int,
            o[i + 1].valid_time as int,
            o[i].value,
            found,
        ) {
            None => None,
            Some((first, left)) => behind(first, all_pieces(o, i + 1, max_gap, left)),
        }
    } else {
        all_pieces(o, i + 1, max_gap, found)
    }
}

/// Pieces with others before them.
pub open spec fn behind(first: Seq<Piece>, rest: Option<Seq<Piece>>) -> Option<Seq<Piece>> {
    match rest {
        None => None,
        Some(rest) => Some(first + rest),
    }
}

/// The samples of the points that were placed in the bucket at `s`.
pub open spec fn samples_placed(o: Seq<Point>, bounds: Seq<(i64, i64)>, s: i64) -> Seq<Sample>
    decreases bounds.len(),
{
    if bounds.len() == 0 {
        Seq::empty()
    } else {
        let front = samples_placed(o, bounds.drop_last(), s);
        let point = o[bounds.len() - 1];
        if bounds.last().0 == s {
            front.push(Sample { timestamp: point.valid_time, value: point.value })
        } else {
            front
        }
    }
}

/// The holds of the pieces that were placed in the bucket at `s`.
pub open spec fn holds_placed(pieces: Seq<Piece>, s: i64) -> Seq<Hold>
    decreases pieces.len(),
{
    if pieces.len() == 0 {
        Seq::empty()
    } else {
        let front = holds_placed(pieces.drop_last(), s);
        if pieces.last().bucket == s {
            front.push(pieces.last().hold)
        } else {
            front
        }
    }
}

/// Where the bucket at `s` ends: as it was first found, for a point or else for a piece.
pub open spec fn end_placed(bounds: Seq<(i64, i64)>, pieces: Seq<Piece>, s: i64) -> Option<i64>
    decreases bounds.len() + pieces.len(),
{
    if pieces.len() > 0 {
        match end_placed(bounds, pieces.drop_last(), s) {
            Some(end) => Some(end),
            None => if pieces.last().bucket == s {
                Some(pieces.last().bucket_end)
            } else {
                None
            },
        }
    } else if bounds.len() > 0 {
        match end_placed(bounds.drop_last(), pieces, s) {
            Some(end) => Some(end),
            None => if bounds.last().0 == s {
                Some(bounds.last().1)
            } else {
                None
            },
        }
    } else {
        None
    }
}

/// How long the pieces last together.
pub open spec fn pieces_total(pieces: Seq<Piece>) -> int
    decreases pieces.len(),
{
    if pieces.len() == 0 {
        0
    } else {
        pieces_total(pieces.drop_last()) + pieces.last().hold.micros
    }
}

/// How long the values of points held: from each to the next, unless the gap between
/// them is longer than the maximum.
pub open spec fn gaps_total(o: Seq<Point>, max_gap: int) -> int
    decreases o.len(),
{
    if o.len() <= 1 {
        0
    } else {
        gaps_total(o.drop_last(), max_gap) + if holds_on(o, o.len() - 2, max_gap) {
            o.last().valid_time - o[o.len() - 2].valid_time
        } else {
            0
        }
    }
}

/// Whether buckets hold the points and the pieces where they were placed: all of them,
/// each in order of time, and nothing else.
pub open spec fn placed(
    list: Seq<BucketParts>,
    o: Seq<Point>,
    bounds: Seq<(i64, i64)>,
    pieces: Seq<Piece>,
) -> bool {
    &&& bounds.len() == o.len()
    &&& ascending_starts(list)
    &&& forall|i: int|
        0 <= i < list.len() ==> {
            let bucket = #[trigger] list[i];
            &&& end_placed(bounds, pieces, bucket.start) == Some(bucket.end)
            &&& bucket.samples@ == samples_placed(o, bounds, bucket.start)
            &&& bucket.holds@ == holds_placed(pieces, bucket.start)
        }
    &&& forall|s: i64| end_placed(bounds, pieces, s) is Some <==> #[trigger] listed(list, s)
}

/// Whether each point lies between the edges found for it.
pub open spec fn points_held(o: Seq<Point>, bounds: Seq<(i64, i64)>) -> bool {
    &&& bounds.len() == o.len()
    &&& forall|i: int| 0 <= i < o.len() ==> holds_time(bounds[i], (#[trigger] o[i]).valid_time as int)
}

/// Whether buckets are those of points in order of time, where `bounds` are the buckets
/// found for the points and `found` those found on the way from point to point.
pub open spec fn rolled_up(
    list: Seq<BucketParts>,
    o: Seq<Point>,
    max_gap: int,
    bounds: Seq<(i64, i64)>,
    found: Seq<(i64, i64)>,
) -> bool {
    &&& points_held(o, bounds)
    &&& all_pieces(o, 0, max_gap, found) is Some
    &&& placed(list, o, bounds, all_pieces(o, 0, max_gap, found)->Some_0)
}

proof fn lemma_pieces_total_adds(a: Seq<Piece>, b: Seq<Piece>)
    ensures
        pieces_total(a + b) == pieces_total(a) + pieces_total(b),
    decreases b.len(),
{
    if b.len() == 0 {
        assert(a + b =~= a);
    } else {
        lemma_pieces_total_adds(a, b.drop_last());
        assert((a + b).drop_last() =~= a + b.drop_last());
    }
}

proof fn lemma_hold_total(from: int, to: int, value: FloatBits, found: Seq<(i64, i64)>)
    requires
        from <= to,
        to - from <= i64::MAX,
        hold_pieces(from, to, value, found) is Some,
    ensures
        pieces_total((hold_pieces(from, to, value, found)->Some_0).0) == to - from,
    decreases found.len(),
{
    if from < to {
        let bucket_end = found[0].1;
        let next = if to < bucket_end {
            to
        } else {
            bucket_end as int
        };
        lemma_hold_total(next, to, value, found.skip(1));
        let rest = (hold_pieces(next, to, value, found.skip(1))->Some_0).0;
        let piece = Piece {
            bucket: found[0].0,
            bucket_end,
            hold: Hold { value, micros: (next - from) as i64 },
        };
        lemma_pieces_total_adds(seq![piece], rest);
        assert(seq![piece].drop_last() =~= Seq::<Piece>::empty());
        assert(pieces_total(Seq::<Piece>::empty()) == 0);
        assert(seq![piece].last().hold.micros == next - from);
        assert(seq![piece] + rest =~= (hold_pieces(from, to, value, found)->Some_0).0);
    }
}

proof fn lemma_all_total(o: Seq<Point>, i: int, max_gap: int, found: Seq<(i64, i64)>)
    requires
        0 <= i < o.len(),
        max_gap <= i64::MAX,
        all_pieces(o, i, max_gap, found) is Some,
    ensures
        pieces_total(all_pieces(o, i, max_gap, found)->Some_0) == gaps_total(o, max_gap)
            - gaps_total(o.take(i + 1), max_gap),
    decreases o.len() - i,
{
    if i + 1 >= o.len() {
        assert(o.take(i + 1) =~= o);
    } else {
        let longer = o.take(i + 2);
        assert(longer.drop_last() =~= o.take(i + 1));
        assert(longer[i] == o[i] && longer[i + 1] == o[i + 1]);
        if holds_on(o, i, max_gap) {
            let from = o[i].valid_time as int;
            let to = o[i + 1].valid_time as int;
            let (first, left) = hold_pieces(from, to, o[i].value, found)->Some_0;
            lemma_hold_total(from, to, o[i].value, found);
            lemma_all_total(o, i + 1, max_gap, left);
            lemma_pieces_total_adds(first, all_pieces(o, i + 1, max_gap, left)->Some_0);
        } else {
            lemma_all_total(o, i + 1, max_gap, found);
        }
    }
}

/// Whatever buckets the calendar gives, a value holds for exactly as long as the points
/// say: nothing is lost at the edges of the buckets, and nothing counts twice.
pub proof fn held_time_is_whole(o: Seq<Point>, max_gap: int, found: Seq<(i64, i64)>)
    requires
        max_gap <= i64::MAX,
        all_pieces(o, 0, max_gap, found) is Some,
    ensures
        pieces_total(all_pieces(o, 0, max_gap, found)->Some_0) == gaps_total(o, max_gap),
{
    if o.len() > 0 {
        lemma_all_total(o, 0, max_gap, found);
    }
}

/// Calendar rollups of one gauge series.
#[derive(Debug)]
pub struct CalendarGaugeRollup {
    resolution: RollupResolution,
    buckets: Vec<BucketParts>,
}

/// What has been placed so far.
spec fn so_far(
    parts: RollupParts,
    o: Seq<Point>,
    bounds: Seq<(i64, i64)>,
    pieces: Seq<Piece>,
) -> bool {
    &&& parts.keyed()
    &&& forall|s: i64| #[trigger] parts.samples(s) == samples_placed(o, bounds, s)
    &&& forall|s: i64| #[trigger] parts.holds(s) == holds_placed(pieces, s)
    &&& forall|s: i64| #[trigger]
        parts.buckets().contains_key(s) <==> end_placed(bounds, pieces, s) is Some
    &&& forall|s: i64| #[trigger]
        parts.buckets().contains_key(s) ==> end_placed(bounds, pieces, s) == Some(
            parts.buckets()[s].end,
        )
}

/// Places the samples of points in the buckets found for them.
fn place_points(ordered: &Vec<Point>, bounds: &Vec<(i64, i64)>) -> (parts: RollupParts)
    requires
        bounds@.len() == ordered@.len(),
    ensures
        so_far(parts, ordered@, bounds@, Seq::empty()),
{
    let ghost o = ordered@;
    let ghost none = Seq::<Piece>::empty();
    let mut parts = RollupParts::new();
    let mut i: usize = 0;
    assert(bounds@.take(0) =~= Seq::<(i64, i64)>::empty());
    while i < ordered.len()
        invariant
            i <= o.len(),
            o == ordered@,
            bounds@.len() == o.len(),
            none == Seq::<Piece>::empty(),
            so_far(parts, o, bounds@.take(i as int), none),
        decreases o.len() - i,
    {
        let point = ordered[i];
        let (start, end) = bounds[i];
        let ghost before = parts;
        let ghost some = bounds@.take(i as int);
        parts.add_sample(start, end, Sample::new(point.valid_time, point.value));
        proof {
            let longer = bounds@.take(i + 1);
            assert(longer.drop_last() =~= some);
            assert forall|s: i64| #[trigger] parts.samples(s) == samples_placed(o, longer, s) by {
                assert(before.samples(s) == samples_placed(o, some, s));
            }
            assert forall|s: i64| #[trigger] parts.holds(s) == holds_placed(none, s) by {
                assert(before.holds(s) == holds_placed(none, s));
            }
            assert forall|s: i64| #[trigger] parts.buckets().contains_key(s) <==> end_placed(
                longer,
                none,
                s,
            ) is Some by {
                assert(before.buckets().contains_key(s) <==> end_placed(some, none, s) is Some);
            }
            assert forall|s: i64| #[trigger]
                parts.buckets().contains_key(s) implies end_placed(longer, none, s) == Some(
                parts.buckets()[s].end,
            ) by {
                assert(before.buckets().contains_key(s) <==> end_placed(some, none, s) is Some);
            }
        }
        i = i + 1;
    }
    assert(bounds@.take(o.len() as int) =~= bounds@);
    parts
}

/// Places one piece of a hold in its bucket, and gives the time up to which the hold has
/// then been placed.
fn place_piece(
    parts: &mut RollupParts,
    bucket: (i64, i64),
    from: i64,
    to: i64,
    value: FloatBits,
    Ghost(o): Ghost<Seq<Point>>,
    Ghost(bounds): Ghost<Seq<(i64, i64)>>,
    Ghost(pieces): Ghost<Seq<Piece>>,
) -> (next: i64)
    requires
        from < to,
        from < bucket.1,
        to - from <= i64::MAX,
        so_far(*old(parts), o, bounds, pieces),
    ensures
        next == if to < bucket.1 {
            to
        } else {
            bucket.1
        },
        so_far(
            *final(parts),
            o,
            bounds,
            pieces.push(
                Piece {
                    bucket: bucket.0,
                    bucket_end: bucket.1,
                    hold: Hold { value, micros: (next - from) as i64 },
                },
            ),
        ),
{
    let ghost before = *parts;
    let next: i64 = parts.add_piece(bucket.0, bucket.1, from, to, value);
    proof {
        let added = Piece {
            bucket: bucket.0,
            bucket_end: bucket.1,
            hold: Hold { value, micros: (next - from) as i64 },
        };
        let longer = pieces.push(added);
        assert(longer.drop_last() =~= pieces);
        assert forall|s: i64| #[trigger] parts.samples(s) == samples_placed(o, bounds, s) by {
            assert(before.samples(s) == samples_placed(o, bounds, s));
        }
        assert forall|s: i64| #[trigger] parts.holds(s) == holds_placed(longer, s) by {
            assert(before.holds(s) == holds_placed(pieces, s));
        }
        assert forall|s: i64| #[trigger] parts.buckets().contains_key(s) <==> end_placed(
            bounds,
            longer,
            s,
        ) is Some by {
            assert(before.buckets().contains_key(s) <==> end_placed(bounds, pieces, s) is Some);
        }
        assert forall|s: i64| #[trigger]
            parts.buckets().contains_key(s) implies end_placed(bounds, longer, s) == Some(
            parts.buckets()[s].end,
        ) by {
            assert(before.buckets().contains_key(s) <==> end_placed(bounds, pieces, s) is Some);
        }
    }
    next
}

/// What becomes of all pieces once a hold has been placed up to here.
spec fn carried_on(
    pieces: Seq<Piece>,
    o: Seq<Point>,
    k: int,
    max_gap: int,
    hold: Option<(Seq<Piece>, Seq<(i64, i64)>)>,
) -> Option<Seq<Piece>> {
    match hold {
        None => None,
        Some((first, left)) => behind(pieces + first, all_pieces(o, k + 1, max_gap, left)),
    }
}

/// Places the values that held from point to point in the buckets found for them, unless
/// the buckets do not fit.
#[verifier::loop_isolation(false)]
fn place_holds(
    parts: &mut RollupParts,
    ordered: &Vec<Point>,
    max_gap_micros: i64,
    found: &Vec<(i64, i64)>,
    Ghost(bounds): Ghost<Seq<(i64, i64)>>,
) -> (fits: bool)
    requires
        max_gap_micros >= 0,
        so_far(*old(parts), ordered@, bounds, Seq::empty()),
    ensures
        match all_pieces(ordered@, 0, max_gap_micros as int, found@) {
            None => !fits,
            Some(pieces) => fits && so_far(*final(parts), ordered@, bounds, pieces),
        },
{
    let ghost o = ordered@;
    let ghost g = max_gap_micros as int;
    let ghost whole = all_pieces(o, 0, g, found@);
    let ghost mut pieces: Seq<Piece> = Seq::empty();
    let total: usize = ordered.len();
    let mut j: usize = 0;
    let mut k: usize = 0;
    proof {
        assert(found@.skip(0) =~= found@);
        match all_pieces(o, 0, g, found@) {
            Some(rest) => {
                assert(pieces + rest =~= rest);
            },
            None => {},
        }
    }
    while total > 0 && k < total - 1
        invariant
            total == o.len(),
            total > 0 ==> k <= total - 1,
            j <= found@.len(),
            so_far(*parts, o, bounds, pieces),
            whole == behind(pieces, all_pieces(o, k as int, g, found@.skip(j as int))),
        decreases total - k,
    {
        let previous = ordered[k];
        let next = ordered[k + 1];
        let gap: i128 = next.valid_time as i128 - previous.valid_time as i128;
        if gap > 0 && gap <= max_gap_micros as i128 {
            let to: i64 = next.valid_time;
            let mut start: i64 = previous.valid_time;
            let ghost v = previous.value;
            proof {
                let rest = found@.skip(j as int);
                match hold_pieces(start as int, to as int, v, rest) {
                    Some((first, left)) => {
                        match all_pieces(o, k + 1, g, left) {
                            Some(more) => {
                                assert(pieces + (first + more) =~= (pieces + first) + more);
                            },
                            None => {},
                        }
                    },
                    None => {},
                }
            }
            while start < to
                invariant
                    j <= found@.len(),
                    previous.valid_time <= start <= to,
                    so_far(*parts, o, bounds, pieces),
                    whole == carried_on(
                        pieces,
                        o,
                        k as int,
                        g,
                        hold_pieces(start as int, to as int, v, found@.skip(j as int)),
                    ),
                decreases to - start,
            {
                let ghost rest = found@.skip(j as int);
                if j >= found.len() {
                    return false;
                }
                assert(rest[0] == found@[j as int]);
                if found[j].0 > start || found[j].1 <= start {
                    return false;
                }
                let ghost here = start;
                let ghost earlier = pieces;
                let bucket = found[j];
                let after: i64 = place_piece(
                    parts,
                    bucket,
                    start,
                    to,
                    previous.value,
                    Ghost(o),
                    Ghost(bounds),
                    Ghost(pieces),
                );
                proof {
                    let piece = Piece {
                        bucket: bucket.0,
                        bucket_end: bucket.1,
                        hold: Hold { value: v, micros: (after - here) as i64 },
                    };
                    pieces = pieces.push(piece);
                    assert(rest.skip(1) =~= found@.skip(j + 1));
                    match hold_pieces(after as int, to as int, v, found@.skip(j + 1)) {
                        Some((first, left)) => {
                            assert(earlier + (seq![piece] + first) =~= pieces + first);
                        },
                        None => {},
                    }
                }
                start = after;
                j = j + 1;
            }
            assert(pieces + Seq::<Piece>::empty() =~= pieces);
        }
        k = k + 1;
    }
    proof {
        assert(all_pieces(o, k as int, g, found@.skip(j as int)) == if j == found@.len() {
            Some(Seq::<Piece>::empty())
        } else {
            None
        });
        assert(pieces + Seq::<Piece>::empty() =~= pieces);
    }
    j == found.len()
}

/// Whether a hold can be carried on with these buckets, and all holds behind it.
spec fn goes_on(
    o: Seq<Point>,
    k: int,
    max_gap: int,
    from: int,
    found: Seq<(i64, i64)>,
) -> bool {
    match hold_pieces(from, o[k + 1].valid_time as int, o[k].value, found) {
        None => false,
        Some((_, left)) => all_pieces(o, k + 1, max_gap, left) is Some,
    }
}

/// The buckets that the calendar gives for the times at which pieces begin, from point to
/// point.
#[verifier::loop_isolation(false)]
fn find_hold_buckets(
    ordered: &Vec<Point>,
    unit: CalendarUnit,
    timezone: &str,
    max_gap_micros: i64,
) -> (outcome: Result<Vec<(i64, i64)>, Error>)
    requires
        max_gap_micros >= 0,
    ensures
        match outcome {
            Ok(found) => all_pieces(ordered@, 0, max_gap_micros as int, found@) is Some,
            Err(error) => calendar_fault(error),
        },
{
    let ghost o = ordered@;
    let ghost g = max_gap_micros as int;
    let total: usize = ordered.len();
    let mut found: Vec<(i64, i64)> = Vec::new();
    let mut k: usize = 0;
    assert forall|tail: Seq<(i64, i64)>| (#[trigger] all_pieces(o, 0, g, tail)) is Some implies
        all_pieces(o, 0, g, found@ + tail) is Some by {
        assert(found@ + tail =~= tail);
    }
    while total > 0 && k < total - 1
        invariant
            total == o.len(),
            total > 0 ==> k <= total - 1,
            forall|tail: Seq<(i64, i64)>|
                (#[trigger] all_pieces(o, k as int, g, tail)) is Some ==> all_pieces(
                    o,
                    0,
                    g,
                    found@ + tail,
                ) is Some,
        decreases total - k,
    {
        let previous = ordered[k];
        let next = ordered[k + 1];
        let gap: i128 = next.valid_time as i128 - previous.valid_time as i128;
        if gap > 0 && gap <= max_gap_micros as i128 {
            let to: i64 = next.valid_time;
            let mut start: i64 = previous.valid_time;
            assert forall|tail: Seq<(i64, i64)>| #[trigger]
                goes_on(o, k as int, g, start as int, tail) implies all_pieces(
                o,
                0,
                g,
                found@ + tail,
            ) is Some by {
                assert(all_pieces(o, k as int, g, tail) is Some);
            }
            while start < to
                invariant
                    previous.valid_time <= start <= to,
                    forall|tail: Seq<(i64, i64)>| #[trigger]
                        goes_on(o, k as int, g, start as int, tail) ==> all_pieces(
                            o,
                            0,
                            g,
                            found@ + tail,
                        ) is Some,
                decreases to - start,
            {
                let bucket = calendar_bucket_bounds(start, unit, timezone)?;
                let after: i64 = if to < bucket.1 {
                    to
                } else {
                    bucket.1
                };
                let ghost earlier = found@;
                let ghost here = start as int;
                found.push(bucket);
                start = after;
                assert forall|tail: Seq<(i64, i64)>| #[trigger]
                    goes_on(o, k as int, g, start as int, tail) implies all_pieces(
                    o,
                    0,
                    g,
                    found@ + tail,
                ) is Some by {
                    let longer = seq![bucket] + tail;
                    assert(longer.skip(1) =~= tail);
                    assert(longer[0] == bucket);
                    assert(goes_on(o, k as int, g, here, longer));
                    assert(earlier + longer =~= found@ + tail);
                }
            }
            assert forall|tail: Seq<(i64, i64)>|
                (#[trigger] all_pieces(o, k + 1, g, tail)) is Some implies all_pieces(
                o,
                0,
                g,
                found@ + tail,
            ) is Some by {
                assert(goes_on(o, k as int, g, start as int, tail));
            }
        } else {
            assert forall|tail: Seq<(i64, i64)>|
                (#[trigger] all_pieces(o, k + 1, g, tail)) is Some implies all_pieces(
                o,
                0,
                g,
                found@ + tail,
            ) is Some by {
                assert(all_pieces(o, k as int, g, tail) is Some);
            }
        }
        k = k + 1;
    }
    proof {
        let none = Seq::<(i64, i64)>::empty();
        assert(all_pieces(o, k as int, g, none) is Some);
        assert(found@ + none =~= found@);
    }
    Ok(found)
}

/// The buckets that the calendar gives for the times of points.
fn find_point_buckets(ordered: &Vec<Point>, unit: CalendarUnit, timezone: &str) -> (outcome: Result<
    Vec<(i64, i64)>,
    Error,
>)
    ensures
        match outcome {
            Ok(bounds) => points_held(ordered@, bounds@),
            Err(error) => calendar_fault(error),
        },
{
    let mut bounds: Vec<(i64, i64)> = Vec::new();
    let mut i: usize = 0;
    while i < ordered.len()
        invariant
            i <= ordered@.len(),
            bounds@.len() == i,
            forall|k: int|
                0 <= k < i ==> holds_time(bounds@[k], (#[trigger] ordered@[k]).valid_time as int),
        decreases ordered@.len() - i,
    {
        bounds.push(calendar_bucket_bounds(ordered[i].valid_time, unit, timezone)?);
        i = i + 1;
    }
    Ok(bounds)
}

/// Whether each point lies between the edges found for it.
fn are_points_held(ordered: &Vec<Point>, bounds: &Vec<(i64, i64)>) -> (yes: bool)
    ensures
        yes == points_held(ordered@, bounds@),
{
    if bounds.len() != ordered.len() {
        return false;
    }
    let mut i: usize = 0;
    while i < ordered.len()
        invariant
            i <= ordered@.len() == bounds@.len(),
            forall|k: int|
                0 <= k < i ==> holds_time(bounds@[k], (#[trigger] ordered@[k]).valid_time as int),
        decreases ordered@.len() - i,
    {
        let time: i64 = ordered[i].valid_time;
        if bounds[i].0 > time || bounds[i].1 <= time {
            assert(!holds_time(bounds@[i as int], ordered@[i as int].valid_time as int));
            return false;
        }
        i = i + 1;
    }
    true
}

impl CalendarGaugeRollup {
    pub closed spec fn resolution_model(&self) -> ResolutionModel {
        self.resolution.deep_view()
    }

    pub closed spec fn list(&self) -> Seq<BucketParts> {
        self.buckets@
    }

    /// The rollup of points in order of time.
    fn of_ordered(
        ordered: &Vec<Point>,
        unit: CalendarUnit,
        iana_timezone: &str,
        max_gap_micros: i64,
        bounds: &Vec<(i64, i64)>,
        found: &Vec<(i64, i64)>,
    ) -> (outcome: Option<Self>)
        requires
            max_gap_micros >= 0,
        ensures
            match outcome {
                None => !points_held(ordered@, bounds@) || all_pieces(
                    ordered@,
                    0,
                    max_gap_micros as int,
                    found@,
                ) is None,
                Some(rollup) => {
                    &&& rollup.resolution_model() == (ResolutionModel::Calendar {
                        unit,
                        iana_timezone: iana_timezone@,
                    })
                    &&& rolled_up(
                        rollup.list(),
                        ordered@,
                        max_gap_micros as int,
                        bounds@,
                        found@,
                    )
                },
            },
    {
        let ghost o = ordered@;
        if !are_points_held(ordered, bounds) {
            return None;
        }
        let mut parts = place_points(ordered, bounds);
        if !place_holds(&mut parts, ordered, max_gap_micros, found, Ghost(bounds@)) {
            return None;
        }
        let ghost pieces = all_pieces(o, 0, max_gap_micros as int, found@)->Some_0;
        let ghost done = parts;
        let buckets = parts.into_buckets();
        proof {
            assert forall|j: int| 0 <= j < buckets@.len() implies {
                let bucket = #[trigger] buckets@[j];
                &&& end_placed(bounds@, pieces, bucket.start) == Some(bucket.end)
                &&& bucket.samples@ == samples_placed(o, bounds@, bucket.start)
                &&& bucket.holds@ == holds_placed(pieces, bucket.start)
            } by {
                let s = buckets@[j].start;
                assert(done.buckets().contains_key(s));
                assert(done.samples(s) == buckets@[j].samples@);
                assert(done.holds(s) == buckets@[j].holds@);
            }
            assert forall|s: i64| end_placed(bounds@, pieces, s) is Some <==> #[trigger] listed(
                buckets@,
                s,
            ) by {
                assert(done.buckets().contains_key(s) <==> end_placed(bounds@, pieces, s) is Some);
                if listed(buckets@, s) {
                    let j = choose|j: int|
                        0 <= j < buckets@.len() && (#[trigger] buckets@[j]).start == s;
                    assert(done.buckets().contains_key(buckets@[j].start));
                }
            }
        }
        Some(
            CalendarGaugeRollup {
                resolution: RollupResolution::Calendar {
                    unit,
                    iana_timezone: iana_timezone.to_owned(),
                },
                buckets,
            },
        )
    }

    /// The rollup of points for which the calendar's buckets are known: `bounds` for the
    /// points in order of time, and `found` for the times at which the pieces of their
    /// values begin. Buckets that do not fit the points give none.
    pub fn from_bounds(
        points: &[Point],
        unit: CalendarUnit,
        iana_timezone: &str,
        max_gap_micros: i64,
        bounds: &Vec<(i64, i64)>,
        found: &Vec<(i64, i64)>,
    ) -> (outcome: Option<Self>)
        ensures
            max_gap_micros < 0 ==> outcome is None,
            max_gap_micros >= 0 ==> exists|o: Seq<Point>|
                #[trigger] stored_order(o, plain_points(points@)) && match outcome {
                    None => !points_held(o, bounds@) || all_pieces(
                        o,
                        0,
                        max_gap_micros as int,
                        found@,
                    ) is None,
                    Some(rollup) => {
                        &&& rollup.resolution_model() == (ResolutionModel::Calendar {
                            unit,
                            iana_timezone: iana_timezone@,
                        })
                        &&& rolled_up(
                            rollup.list(),
                            o,
                            max_gap_micros as int,
                            bounds@,
                            found@,
                        )
                    },
                },
    {
        let ordered = in_time_order(points);
        if max_gap_micros < 0 {
            return None;
        }
        Self::of_ordered(&ordered, unit, iana_timezone, max_gap_micros, bounds, found)
    }

    /// Builds rollups from the latest revisions of points, in whatever order they come.
    /// The zone is looked up even where there are no points: a typo in a durable policy
    /// must fail at once and not only when data arrive.
    ///
    /// The edges of the buckets come from the machine's time zone database, of which
    /// nothing is said but that each holds the time for which it was found. Whatever they
    /// are, the rollup is that of the points with them.
    pub fn build(
        points: &[Point],
        unit: CalendarUnit,
        iana_timezone: &str,
        max_gap_micros: i64,
    ) -> (outcome: Result<Self, Error>)
        ensures
            max_gap_micros < 0 ==> outcome == Err::<Self, _>(
                Error::InvalidConfig("calendar rollup maximum gap must not be negative"),
            ),
            max_gap_micros >= 0 ==> match outcome {
                Err(error) => calendar_fault(error),
                Ok(rollup) => {
                    &&& rollup.resolution_model() == (ResolutionModel::Calendar {
                        unit,
                        iana_timezone: iana_timezone@,
                    })
                    &&& exists|o: Seq<Point>, bounds: Seq<(i64, i64)>, found: Seq<(i64, i64)>|
                        stored_order(o, plain_points(points@)) && #[trigger] rolled_up(
                            rollup.list(),
                            o,
                            max_gap_micros as int,
                            bounds,
                            found,
                        )
                },
            },
    {
        if max_gap_micros < 0 {
            return Err(Error::InvalidConfig("calendar rollup maximum gap must not be negative"));
        }
        match zoned_at(0, iana_timezone) {
            Ok(_) => {},
            Err(reason) => {
                return Err(calendar_error(reason));
            },
        }
        let ordered = in_time_order(points);
        let bounds = find_point_buckets(&ordered, unit, iana_timezone)?;
        let found = find_hold_buckets(&ordered, unit, iana_timezone, max_gap_micros)?;
        match Self::of_ordered(&ordered, unit, iana_timezone, max_gap_micros, &bounds, &found) {
            Some(rollup) => {
                assert(rolled_up(
                    rollup.list(),
                    ordered@,
                    max_gap_micros as int,
                    bounds@,
                    found@,
                ));
                Ok(rollup)
            },
            None => Err(calendar_error("the buckets do not fit the points".to_owned())),
        }
    }

    pub fn resolution(&self) -> (resolution: &RollupResolution)
        ensures
            resolution.deep_view() == self.resolution_model(),
    {
        &self.resolution
    }

    /// The buckets in order of time.
    pub fn buckets(&self) -> (buckets: &[BucketParts])
        ensures
            buckets@ == self.list(),
    {
        self.buckets.as_slice()
    }

    /// The buckets that overlap `start..end`, by their places among all.
    pub fn range(&self, start: i64, end: i64) -> (found: Vec<usize>)
        ensures
            found@ == overlapping_places(self.list(), start, end),
    {
        let total: usize = self.buckets.len();
        let mut found: Vec<usize> = Vec::new();
        let mut i: usize = 0;
        while i < total
            invariant
                i <= total,
                total == self.list().len(),
                found@ == overlapping_places(self.list().take(i as int), start, end),
            decreases total - i,
        {
            proof {
                assert(self.list().take(i + 1).drop_last() =~= self.list().take(i as int));
            }
            let bucket = &self.buckets[i];
            if bucket.end > start && bucket.start < end {
                found.push(i);
            }
            i = i + 1;
        }
        assert(self.list().take(total as int) =~= self.list());
        found
    }
}

/// The places of the buckets that overlap `start..end`.
pub open spec fn overlapping_places(list: Seq<BucketParts>, start: i64, end: i64) -> Seq<usize>
    decreases list.len(),
{
    if list.len() == 0 {
        Seq::empty()
    } else {
        let front = overlapping_places(list.drop_last(), start, end);
        if list.last().end > start && list.last().start < end {
            front.push((list.len() - 1) as usize)
        } else {
            front
        }
    }
}

} // verus!
