//! What a bucket of a rollup holds, said of the points and of the maximum gap alone.
#[allow(unused_imports)]
use crate::calendar_rollup::{
    all_pieces, end_placed, gaps_total, held_time_is_whole, hold_pieces, holds_placed, holds_time,
    pieces_total, placed, points_held, rolled_up as calendar_rolled_up, samples_placed, Piece,
};
#[allow(unused_imports)]
use crate::counting::sum_of;
#[allow(unused_imports)]
use crate::model::{FloatBits, Point};
#[allow(unused_imports)]
use crate::rollup::{
    aligned, ascending_starts, bucket_fits, bucket_floor, clipped, has_parts, held_total,
    holds_for, lemma_floor_aligned, lemma_in_bucket, listed, rolled_up, samples_for, BucketParts,
    Hold, Sample,
};
use vstd::prelude::*;

verus! {

/// The samples of the points that lie in `s..e`, in their order.
pub open spec fn samples_between(o: Seq<Point>, n: nat, s: int, e: int) -> Seq<Sample>
    decreases n,
{
    if n == 0 {
        Seq::empty()
    } else {
        let front = samples_between(o, (n - 1) as nat, s, e);
        if s <= o[n - 1].valid_time && o[n - 1].valid_time < e {
            front.push(Sample { timestamp: o[n - 1].valid_time, value: o[n - 1].value })
        } else {
            front
        }
    }
}

/// The part of `s..e` in which the value of the point at `k` held until the next, if that
/// came within the maximum gap.
pub open spec fn held_part(o: Seq<Point>, k: int, s: int, e: int, max_gap: int) -> Seq<Hold> {
    let from = if o[k].valid_time < s {
        s
    } else {
        o[k].valid_time as int
    };
    let to = if e < o[k + 1].valid_time {
        e
    } else {
        o[k + 1].valid_time as int
    };
    if o[k + 1].valid_time - o[k].valid_time <= max_gap && from < to {
        seq![Hold { value: o[k].value, micros: (to - from) as i64 }]
    } else {
        Seq::empty()
    }
}

/// The values that held in `s..e`, from the point at `i` up to the one at `n`.
pub open spec fn held_parts(o: Seq<Point>, i: int, n: int, s: int, e: int, max_gap: int) -> Seq<
    Hold,
>
    decreases n - i,
{
    if i >= n {
        Seq::empty()
    } else {
        held_part(o, i, s, e, max_gap) + held_parts(o, i + 1, n, s, e, max_gap)
    }
}

proof fn lemma_parts_end(o: Seq<Point>, i: int, n: int, s: int, e: int, max_gap: int)
    requires
        i < n,
    ensures
        held_parts(o, i, n, s, e, max_gap) == held_parts(o, i, n - 1, s, e, max_gap) + held_part(
            o,
            n - 1,
            s,
            e,
            max_gap,
        ),
    decreases n - i,
{
    let last = held_part(o, n - 1, s, e, max_gap);
    if i == n - 1 {
        assert(held_parts(o, n, n, s, e, max_gap) =~= Seq::<Hold>::empty());
        assert(last + Seq::<Hold>::empty() =~= Seq::<Hold>::empty() + last);
    } else {
        lemma_parts_end(o, i + 1, n, s, e, max_gap);
        let first = held_part(o, i, s, e, max_gap);
        let middle = held_parts(o, i + 1, n - 1, s, e, max_gap);
        assert(first + (middle + last) =~= (first + middle) + last);
    }
}

proof fn lemma_fixed_holds(o: Seq<Point>, n: int, s: int, resolution: int, max_gap: int)
    requires
        0 <= n < o.len(),
        resolution > 0,
    ensures
        holds_for(o.take(n + 1), s, resolution, max_gap) == held_parts(
            o,
            0,
            n,
            s,
            s + resolution,
            max_gap,
        ),
    decreases n,
{
    if n > 0 {
        lemma_fixed_holds(o, n - 1, s, resolution, max_gap);
        lemma_parts_end(o, 0, n, s, s + resolution, max_gap);
        let some = o.take(n as int + 1);
        assert(some.drop_last() =~= o.take(n));
        assert(some[some.len() - 2] == o[n - 1]);
        assert(some.last() == o[n]);
        let front = held_parts(o, 0, n - 1, s, s + resolution, max_gap);
        let micros = clipped(o[n - 1], o[n], s, s + resolution, max_gap);
        let hold = Hold { value: o[n - 1].value, micros: micros as i64 };
        assert(front.push(hold) =~= front + seq![hold]);
        assert(front + Seq::<Hold>::empty() =~= front);
    }
}

proof fn lemma_fixed_samples(o: Seq<Point>, n: nat, s: int, resolution: int)
    requires
        n <= o.len(),
        resolution > 0,
        aligned(s, resolution),
    ensures
        samples_for(o.take(n as int), s, resolution) == samples_between(o, n, s, s + resolution),
    decreases n,
{
    if n > 0 {
        lemma_fixed_samples(o, (n - 1) as nat, s, resolution);
        assert(o.take(n as int).drop_last() =~= o.take(n - 1));
        assert(o.take(n as int).last() == o[n - 1]);
        lemma_in_bucket(o[n - 1].valid_time as int, s, resolution);
    }
}

/// A bucket of a fixed rollup begins at a multiple of the resolution and is as long as it.
/// It holds the samples of exactly the points that lie in it. It holds the value of a point
/// for exactly the part of it that lies between that point and the next, and not at all
/// where the next came later than the maximum gap allows. No bucket is empty, and no point
/// is without its bucket.
pub proof fn fixed_buckets_hold_what_points_say(
    list: Seq<BucketParts>,
    o: Seq<Point>,
    resolution: i64,
    max_gap: i64,
)
    requires
        resolution > 0,
        max_gap >= 0,
        rolled_up(list, o, resolution, max_gap),
    ensures
        forall|b: int|
            #![trigger list[b]]
            0 <= b < list.len() ==> {
                &&& list[b].end - list[b].start == resolution
                &&& list[b].start as int % resolution as int == 0
                &&& list[b].samples@ == samples_between(
                    o,
                    o.len(),
                    list[b].start as int,
                    list[b].end as int,
                )
                &&& list[b].holds@ == held_parts(
                    o,
                    0,
                    o.len() - 1,
                    list[b].start as int,
                    list[b].end as int,
                    max_gap as int,
                )
                &&& list[b].samples@.len() + list[b].holds@.len() > 0
            },
        forall|i: int|
            #![trigger o[i]]
            0 <= i < o.len() && bucket_fits(o[i].valid_time, resolution) ==> exists|b: int|
                0 <= b < list.len() && (#[trigger] list[b]).start <= o[i].valid_time
                    < list[b].end,
{
    let r = resolution as int;
    let g = max_gap as int;
    assert(o.take(o.len() as int) =~= o);
    assert forall|b: int| #![trigger list[b]] 0 <= b < list.len() implies {
        &&& list[b].end - list[b].start == resolution
        &&& list[b].start as int % resolution as int == 0
        &&& list[b].samples@ == samples_between(
            o,
            o.len(),
            list[b].start as int,
            list[b].end as int,
        )
        &&& list[b].holds@ == held_parts(
            o,
            0,
            o.len() - 1,
            list[b].start as int,
            list[b].end as int,
            max_gap as int,
        )
        &&& list[b].samples@.len() + list[b].holds@.len() > 0
    } by {
        let s = list[b].start as int;
        lemma_fixed_samples(o, o.len(), s, r);
        if o.len() > 0 {
            lemma_fixed_holds(o, o.len() - 1, s, r, g);
        }
        assert(has_parts(o, s, r, g));
        vstd::arithmetic::div_mod::lemma_fundamental_div_mod(s, r);
    }
    assert forall|i: int|
        #![trigger o[i]]
        0 <= i < o.len() && bucket_fits(o[i].valid_time, resolution) implies exists|b: int|
        0 <= b < list.len() && (#[trigger] list[b]).start <= o[i].valid_time < list[b].end by {
        let t = o[i].valid_time as int;
        let s = bucket_floor(t, r);
        lemma_floor_aligned(t, r);
        lemma_fixed_samples(o, o.len(), s, r);
        lemma_between_has(o, o.len(), s, s + r, i);
        assert(has_parts(o, s, r, g));
        assert(listed(list, s as i64));
        let b = choose|b: int| 0 <= b < list.len() && (#[trigger] list[b]).start == s as i64;
        assert(list[b].start <= o[i].valid_time < list[b].end);
    }
}

proof fn lemma_between_has(o: Seq<Point>, n: nat, s: int, e: int, i: int)
    requires
        0 <= i < n,
        s <= o[i].valid_time < e,
    ensures
        samples_between(o, n, s, e).len() > 0,
    decreases n,
{
    if i < n - 1 {
        lemma_between_has(o, (n - 1) as nat, s, e, i);
    }
}

// Buckets of the calendar.

proof fn lemma_placed_adds(a: Seq<Piece>, b: Seq<Piece>, s: i64)
    ensures
        holds_placed(a + b, s) == holds_placed(a, s) + holds_placed(b, s),
    decreases b.len(),
{
    if b.len() == 0 {
        assert(a + b =~= a);
        assert(holds_placed(a, s) + holds_placed(b, s) =~= holds_placed(a, s));
    } else {
        lemma_placed_adds(a, b.drop_last(), s);
        assert((a + b).drop_last() =~= a + b.drop_last());
        let x = b.last().hold;
        let p = holds_placed(a, s);
        let q = holds_placed(b.drop_last(), s);
        assert((p + q).push(x) =~= p + q.push(x));
    }
}

/// Whether a piece of time was found that is the bucket `s..e`, or lies outside of it.
spec fn apart_or_same(found: (i64, i64), s: i64, e: i64) -> bool {
    if found.0 == s {
        found.1 == e
    } else {
        found.1 <= s || e <= found.0
    }
}

spec fn all_apart_or_same(found: Seq<(i64, i64)>, s: i64, e: i64) -> bool {
    forall|j: int| 0 <= j < found.len() ==> apart_or_same(#[trigger] found[j], s, e)
}

/// The pieces of one hold in one bucket.
proof fn lemma_hold_in_bucket(
    from: int,
    to: int,
    value: FloatBits,
    found: Seq<(i64, i64)>,
    s: i64,
    e: i64,
)
    requires
        i64::MIN <= from <= to <= i64::MAX,
        to - from <= i64::MAX,
        hold_pieces(from, to, value, found) is Some,
        all_apart_or_same(found, s, e),
    ensures
        ({
            let (first, left) = hold_pieces(from, to, value, found)->Some_0;
            let lo = if from < s {
                s as int
            } else {
                from
            };
            let hi = if e < to {
                e as int
            } else {
                to
            };
            &&& all_apart_or_same(left, s, e)
            &&& holds_placed(first, s) == if lo < hi {
                seq![Hold { value, micros: (hi - lo) as i64 }]
            } else {
                Seq::<Hold>::empty()
            }
        }),
    decreases found.len(),
{
    if from < to {
        let rest = found.skip(1);
        let bucket_end = found[0].1;
        let next = if to < bucket_end {
            to
        } else {
            bucket_end as int
        };
        assert(apart_or_same(found[0], s, e));
        assert forall|j: int| 0 <= j < rest.len() implies apart_or_same(#[trigger] rest[j], s, e) by {
            assert(rest[j] == found[j + 1]);
        }
        lemma_hold_in_bucket(next, to, value, rest, s, e);
        let (more, left) = hold_pieces(next, to, value, rest)->Some_0;
        let piece = Piece {
            bucket: found[0].0,
            bucket_end,
            hold: Hold { value, micros: (next - from) as i64 },
        };
        let one = seq![piece];
        lemma_placed_adds(one, more, s);
        assert(one.drop_last() =~= Seq::<Piece>::empty());
        assert(holds_placed(Seq::<Piece>::empty(), s) =~= Seq::<Hold>::empty());
        if piece.bucket == s {
            assert(holds_placed(one, s) =~= seq![piece.hold]);
            assert(holds_placed(more, s) =~= Seq::<Hold>::empty());
            assert(holds_placed(one + more, s) =~= seq![piece.hold]);
        } else {
            assert(holds_placed(one, s) =~= Seq::<Hold>::empty());
            assert(holds_placed(one + more, s) =~= holds_placed(more, s));
        }
    }
}

/// The pieces of all holds in one bucket.
proof fn lemma_holds_in_bucket(
    o: Seq<Point>,
    i: int,
    max_gap: int,
    found: Seq<(i64, i64)>,
    s: i64,
    e: i64,
)
    requires
        0 <= i < o.len(),
        max_gap <= i64::MAX,
        all_pieces(o, i, max_gap, found) is Some,
        all_apart_or_same(found, s, e),
    ensures
        holds_placed(all_pieces(o, i, max_gap, found)->Some_0, s) == held_parts(
            o,
            i,
            o.len() - 1,
            s as int,
            e as int,
            max_gap,
        ),
    decreases o.len() - i,
{
    if i + 1 >= o.len() {
        assert(holds_placed(Seq::<Piece>::empty(), s) =~= Seq::<Hold>::empty());
    } else {
        let from = o[i].valid_time as int;
        let to = o[i + 1].valid_time as int;
        let later = held_parts(o, i + 1, o.len() - 1, s as int, e as int, max_gap);
        if 0 < to - from <= max_gap {
            let (first, left) = hold_pieces(from, to, o[i].value, found)->Some_0;
            lemma_hold_in_bucket(from, to, o[i].value, found, s, e);
            lemma_holds_in_bucket(o, i + 1, max_gap, left, s, e);
            lemma_placed_adds(first, all_pieces(o, i + 1, max_gap, left)->Some_0, s);
            assert(holds_placed(first, s) =~= held_part(o, i, s as int, e as int, max_gap));
        } else {
            lemma_holds_in_bucket(o, i + 1, max_gap, found, s, e);
            assert(held_part(o, i, s as int, e as int, max_gap) =~= Seq::<Hold>::empty());
            assert(Seq::<Hold>::empty() + later =~= later);
        }
    }
}

/// The samples in one bucket.
proof fn lemma_samples_in_bucket(
    o: Seq<Point>,
    bounds: Seq<(i64, i64)>,
    n: nat,
    s: i64,
    e: i64,
)
    requires
        n <= o.len(),
        points_held(o, bounds),
        all_apart_or_same(bounds, s, e),
    ensures
        samples_placed(o, bounds.take(n as int), s) == samples_between(o, n, s as int, e as int),
    decreases n,
{
    if n > 0 {
        lemma_samples_in_bucket(o, bounds, (n - 1) as nat, s, e);
        let some = bounds.take(n as int);
        assert(some.drop_last() =~= bounds.take(n - 1));
        assert(some.last() == bounds[n - 1]);
        assert(apart_or_same(bounds[n - 1], s, e));
        assert(holds_time(bounds[n - 1], o[n - 1].valid_time as int));
    } else {
        assert(bounds.take(0) =~= Seq::<(i64, i64)>::empty());
    }
}

/// Where the edges of a bucket come from.
proof fn lemma_edges(bounds: Seq<(i64, i64)>, pieces: Seq<Piece>, s: i64)
    requires
        end_placed(bounds, pieces, s) is Some,
    ensures
        (exists|j: int| 0 <= j < bounds.len() && #[trigger] bounds[j] == (s, end_placed(
            bounds,
            pieces,
            s,
        )->Some_0)) || (exists|j: int|
            0 <= j < pieces.len() && (#[trigger] pieces[j]).bucket == s && pieces[j].bucket_end
                == end_placed(bounds, pieces, s)->Some_0),
    decreases bounds.len() + pieces.len(),
{
    let e = end_placed(bounds, pieces, s)->Some_0;
    if pieces.len() > 0 {
        let front = pieces.drop_last();
        if end_placed(bounds, front, s) is Some {
            lemma_edges(bounds, front, s);
            if exists|j: int|
                0 <= j < front.len() && (#[trigger] front[j]).bucket == s && front[j].bucket_end
                    == e {
                let j = choose|j: int|
                    0 <= j < front.len() && (#[trigger] front[j]).bucket == s
                        && front[j].bucket_end == e;
                assert(pieces[j].bucket == s);
            }
        } else {
            assert(pieces[pieces.len() - 1].bucket == s);
        }
    } else if bounds.len() > 0 {
        let front = bounds.drop_last();
        if end_placed(front, pieces, s) is Some {
            lemma_edges(front, pieces, s);
            let j = choose|j: int| 0 <= j < front.len() && #[trigger] front[j] == (s, e);
            assert(bounds[j] == (s, e));
        } else {
            assert(bounds[bounds.len() - 1] == (s, e));
        }
    }
}

/// Whether a piece of a value lies between two points that are no further apart than the
/// maximum gap, and in its bucket.
pub open spec fn lies_between(
    o: Seq<Point>,
    k: int,
    max_gap: int,
    start: int,
    hold: Hold,
    from: int,
) -> bool {
    &&& 0 <= k < o.len() - 1
    &&& o[k + 1].valid_time - o[k].valid_time <= max_gap
    &&& o[k].valid_time <= from
    &&& from + hold.micros <= o[k + 1].valid_time
    &&& hold.micros > 0
    &&& hold.value == o[k].value
    &&& start <= from
}

/// Whether a piece lies between points, in a bucket that was found for it.
spec fn sound_piece(
    o: Seq<Point>,
    max_gap: int,
    piece: Piece,
    k: int,
    from: int,
    whole: Seq<(i64, i64)>,
) -> bool {
    &&& lies_between(o, k, max_gap, piece.bucket as int, piece.hold, from)
    &&& whole.contains((piece.bucket, piece.bucket_end))
}

spec fn some_sound(o: Seq<Point>, max_gap: int, piece: Piece, whole: Seq<(i64, i64)>) -> bool {
    exists|k: int, from: int| #[trigger] sound_piece(o, max_gap, piece, k, from, whole)
}

spec fn all_within(found: Seq<(i64, i64)>, whole: Seq<(i64, i64)>) -> bool {
    forall|j: int| 0 <= j < found.len() ==> whole.contains(#[trigger] found[j])
}

proof fn lemma_hold_sound(
    o: Seq<Point>,
    k: int,
    max_gap: int,
    from: int,
    found: Seq<(i64, i64)>,
    whole: Seq<(i64, i64)>,
)
    requires
        0 <= k < o.len() - 1,
        0 < o[k + 1].valid_time - o[k].valid_time <= max_gap <= i64::MAX,
        o[k].valid_time <= from <= o[k + 1].valid_time,
        hold_pieces(from, o[k + 1].valid_time as int, o[k].value, found) is Some,
        all_within(found, whole),
    ensures
        ({
            let (first, left) = hold_pieces(
                from,
                o[k + 1].valid_time as int,
                o[k].value,
                found,
            )->Some_0;
            &&& all_within(left, whole)
            &&& forall|j: int|
                0 <= j < first.len() ==> some_sound(o, max_gap, #[trigger] first[j], whole)
        }),
    decreases found.len(),
{
    let to = o[k + 1].valid_time as int;
    if from < to {
        let rest = found.skip(1);
        let bucket_end = found[0].1;
        let next = if to < bucket_end {
            to
        } else {
            bucket_end as int
        };
        assert(whole.contains(found[0]));
        assert forall|j: int| 0 <= j < rest.len() implies whole.contains(#[trigger] rest[j]) by {
            assert(rest[j] == found[j + 1]);
        }
        lemma_hold_sound(o, k, max_gap, next, rest, whole);
        let (more, left) = hold_pieces(next, to, o[k].value, rest)->Some_0;
        let piece = Piece {
            bucket: found[0].0,
            bucket_end,
            hold: Hold { value: o[k].value, micros: (next - from) as i64 },
        };
        assert(sound_piece(o, max_gap, piece, k, from, whole));
        let first = seq![piece] + more;
        assert forall|j: int| 0 <= j < first.len() implies some_sound(
            o,
            max_gap,
            #[trigger] first[j],
            whole,
        ) by {
            if j > 0 {
                assert(first[j] == more[j - 1]);
            }
        }
    }
}

proof fn lemma_pieces_sound(
    o: Seq<Point>,
    i: int,
    max_gap: int,
    found: Seq<(i64, i64)>,
    whole: Seq<(i64, i64)>,
)
    requires
        0 <= i,
        max_gap <= i64::MAX,
        all_pieces(o, i, max_gap, found) is Some,
        all_within(found, whole),
    ensures
        forall|j: int|
            0 <= j < (all_pieces(o, i, max_gap, found)->Some_0).len() ==> some_sound(
                o,
                max_gap,
                #[trigger] (all_pieces(o, i, max_gap, found)->Some_0)[j],
                whole,
            ),
    decreases o.len() - i,
{
    if i + 1 < o.len() {
        let from = o[i].valid_time as int;
        let to = o[i + 1].valid_time as int;
        if 0 < to - from <= max_gap {
            let (first, left) = hold_pieces(from, to, o[i].value, found)->Some_0;
            lemma_hold_sound(o, i, max_gap, from, found, whole);
            lemma_pieces_sound(o, i + 1, max_gap, left, whole);
            let rest = all_pieces(o, i + 1, max_gap, left)->Some_0;
            let all = first + rest;
            assert forall|j: int| 0 <= j < all.len() implies some_sound(
                o,
                max_gap,
                #[trigger] all[j],
                whole,
            ) by {
                if j < first.len() {
                    assert(all[j] == first[j]);
                } else {
                    assert(all[j] == rest[j - first.len()]);
                }
            }
        } else {
            lemma_pieces_sound(o, i + 1, max_gap, found, whole);
        }
    }
}

/// A hold that was placed is that of a piece.
proof fn lemma_placed_piece(pieces: Seq<Piece>, s: i64, h: int) -> (j: int)
    requires
        0 <= h < holds_placed(pieces, s).len(),
    ensures
        0 <= j < pieces.len(),
        pieces[j].bucket == s,
        pieces[j].hold == holds_placed(pieces, s)[h],
    decreases pieces.len(),
{
    let front = pieces.drop_last();
    if h < holds_placed(front, s).len() {
        lemma_placed_piece(front, s, h)
    } else {
        pieces.len() - 1
    }
}

/// Whether the buckets that a calendar gave are those of one calendar: two that begin alike
/// end alike, and two that do not have no time in common.
pub open spec fn one_calendar(given: Seq<(i64, i64)>) -> bool {
    &&& forall|i: int, j: int|
        #![trigger given[i], given[j]]
        0 <= i < given.len() && 0 <= j < given.len() && given[i].0 == given[j].0 ==> given[i].1
            == given[j].1
    &&& forall|i: int, j: int|
        #![trigger given[i], given[j]]
        0 <= i < given.len() && 0 <= j < given.len() && given[i].0 < given[j].0 ==> given[i].1
            <= given[j].0
}

/// A bucket of a calendar rollup holds the samples of exactly the points that lie in it. It
/// holds the value of a point for exactly the part of it that lies between that point and
/// the next, and not at all where the next came later than the maximum gap allows.
pub proof fn calendar_buckets_hold_what_points_say(
    list: Seq<BucketParts>,
    o: Seq<Point>,
    max_gap: int,
    bounds: Seq<(i64, i64)>,
    found: Seq<(i64, i64)>,
)
    requires
        max_gap <= i64::MAX,
        calendar_rolled_up(list, o, max_gap, bounds, found),
        one_calendar(bounds + found),
    ensures
        forall|b: int|
            #![trigger list[b]]
            0 <= b < list.len() ==> {
                &&& (bounds + found).contains((list[b].start, list[b].end))
                &&& list[b].samples@ == samples_between(
                    o,
                    o.len(),
                    list[b].start as int,
                    list[b].end as int,
                )
                &&& list[b].holds@ == held_parts(
                    o,
                    0,
                    o.len() - 1,
                    list[b].start as int,
                    list[b].end as int,
                    max_gap,
                )
            },
{
    let given = bounds + found;
    let pieces = all_pieces(o, 0, max_gap, found)->Some_0;
    assert forall|j: int| 0 <= j < found.len() implies given.contains(#[trigger] found[j]) by {
        assert(given[bounds.len() + j] == found[j]);
    }
    lemma_pieces_sound(o, 0, max_gap, found, given);
    assert forall|b: int| #![trigger list[b]] 0 <= b < list.len() implies {
        &&& given.contains((list[b].start, list[b].end))
        &&& list[b].samples@ == samples_between(
            o,
            o.len(),
            list[b].start as int,
            list[b].end as int,
        )
        &&& list[b].holds@ == held_parts(
            o,
            0,
            o.len() - 1,
            list[b].start as int,
            list[b].end as int,
            max_gap,
        )
    } by {
        let s = list[b].start;
        let e = list[b].end;
        lemma_edges(bounds, pieces, s);
        assert(given.contains((s, e))) by {
            if exists|j: int| 0 <= j < bounds.len() && #[trigger] bounds[j] == (s, e) {
                let j = choose|j: int| 0 <= j < bounds.len() && #[trigger] bounds[j] == (s, e);
                assert(given[j] == (s, e));
            } else {
                let j = choose|j: int|
                    0 <= j < pieces.len() && (#[trigger] pieces[j]).bucket == s
                        && pieces[j].bucket_end == e;
                assert(some_sound(o, max_gap, pieces[j], given));
            }
        }
        let at = given.index_of((s, e));
        assert(given[at] == (s, e));
        assert forall|j: int| 0 <= j < bounds.len() implies apart_or_same(
            #[trigger] bounds[j],
            s,
            e,
        ) by {
            assert(given[j] == bounds[j]);
        }
        assert forall|j: int| 0 <= j < found.len() implies apart_or_same(
            #[trigger] found[j],
            s,
            e,
        ) by {
            assert(given[bounds.len() + j] == found[j]);
        }
        assert(bounds.take(o.len() as int) =~= bounds);
        lemma_samples_in_bucket(o, bounds, o.len(), s, e);
        if o.len() > 0 {
            lemma_holds_in_bucket(o, 0, max_gap, found, s, e);
        } else {
            assert(holds_placed(Seq::<Piece>::empty(), s) =~= Seq::<Hold>::empty());
        }
    }
}

/// How long the values of a bucket held together.
pub open spec fn time_held(bucket: BucketParts) -> int {
    sum_of(Seq::new(bucket.holds@.len(), |h: int| bucket.holds@[h].micros as int))
}

proof fn lemma_held_total(holds: Seq<Hold>)
    ensures
        held_total(holds) == sum_of(Seq::new(holds.len(), |h: int| holds[h].micros as int)),
    decreases holds.len(),
{
    let all = Seq::new(holds.len(), |h: int| holds[h].micros as int);
    if holds.len() > 0 {
        let front = holds.drop_last();
        lemma_held_total(front);
        assert(all.drop_last() =~= Seq::new(front.len(), |h: int| front[h].micros as int));
    } else {
        assert(all =~= Seq::<int>::empty());
    }
}

/// How long pieces held that lie in the first `n` buckets.
spec fn placed_total(list: Seq<BucketParts>, pieces: Seq<Piece>, n: nat) -> int
    decreases n,
{
    if n == 0 {
        0
    } else {
        placed_total(list, pieces, (n - 1) as nat) + held_total(
            holds_placed(pieces, list[n - 1].start),
        )
    }
}

proof fn lemma_one_more_piece(list: Seq<BucketParts>, pieces: Seq<Piece>, at: int, n: nat)
    requires
        ascending_starts(list),
        pieces.len() > 0,
        0 <= at < list.len(),
        list[at].start == pieces.last().bucket,
        n <= list.len(),
    ensures
        placed_total(list, pieces, n) == placed_total(list, pieces.drop_last(), n) + if at < n {
            pieces.last().hold.micros as int
        } else {
            0
        },
    decreases n,
{
    if n > 0 {
        lemma_one_more_piece(list, pieces, at, (n - 1) as nat);
        let s = list[n - 1].start;
        let front = holds_placed(pieces.drop_last(), s);
        if at == n - 1 {
            assert(front.push(pieces.last().hold).drop_last() =~= front);
        } else if at < n - 1 {
            assert(list[at].start < list[n - 1].start);
        } else {
            assert(list[n - 1].start < list[at].start);
        }
    }
}

proof fn lemma_no_pieces(list: Seq<BucketParts>, n: nat)
    ensures
        placed_total(list, Seq::<Piece>::empty(), n) == 0,
    decreases n,
{
    if n > 0 {
        lemma_no_pieces(list, (n - 1) as nat);
    }
}

proof fn lemma_pieces_placed(list: Seq<BucketParts>, pieces: Seq<Piece>)
    requires
        ascending_starts(list),
        forall|j: int| 0 <= j < pieces.len() ==> listed(list, (#[trigger] pieces[j]).bucket),
    ensures
        placed_total(list, pieces, list.len()) == pieces_total(pieces),
    decreases pieces.len(),
{
    if pieces.len() == 0 {
        assert(pieces =~= Seq::<Piece>::empty());
        lemma_no_pieces(list, list.len());
    } else {
        let front = pieces.drop_last();
        assert forall|j: int| 0 <= j < front.len() implies listed(
            list,
            (#[trigger] front[j]).bucket,
        ) by {
            assert(front[j] == pieces[j]);
        }
        lemma_pieces_placed(list, front);
        assert(listed(list, pieces[pieces.len() - 1].bucket));
        let at = choose|i: int|
            0 <= i < list.len() && (#[trigger] list[i]).start == pieces.last().bucket;
        lemma_one_more_piece(list, pieces, at, list.len());
    }
}

/// The bucket of a piece is one of those that were placed.
proof fn lemma_piece_ends(bounds: Seq<(i64, i64)>, pieces: Seq<Piece>, j: int)
    requires
        0 <= j < pieces.len(),
    ensures
        end_placed(bounds, pieces, pieces[j].bucket) is Some,
    decreases pieces.len(),
{
    if j < pieces.len() - 1 {
        assert(pieces.drop_last()[j] == pieces[j]);
        lemma_piece_ends(bounds, pieces.drop_last(), j);
    }
}

proof fn lemma_times_held(list: Seq<BucketParts>, pieces: Seq<Piece>, n: nat)
    requires
        n <= list.len(),
        forall|b: int|
            0 <= b < list.len() ==> (#[trigger] list[b]).holds@ == holds_placed(
                pieces,
                list[b].start,
            ),
    ensures
        sum_of(Seq::new(n, |b: int| time_held(list[b]))) == placed_total(list, pieces, n),
    decreases n,
{
    let all = Seq::new(n, |b: int| time_held(list[b]));
    if n > 0 {
        lemma_times_held(list, pieces, (n - 1) as nat);
        assert(all.drop_last() =~= Seq::new((n - 1) as nat, |b: int| time_held(list[b])));
        lemma_held_total(list[n - 1].holds@);
    } else {
        assert(all =~= Seq::<int>::empty());
    }
}

/// The differences between neighbouring points, as far as values held over them.
proof fn lemma_gaps(o: Seq<Point>, max_gap: int, n: nat)
    requires
        n < o.len(),
    ensures
        gaps_total(o.take(n as int + 1), max_gap) == sum_of(
            Seq::new(
                n,
                |i: int|
                    if 0 < o[i + 1].valid_time - o[i].valid_time && o[i + 1].valid_time
                        - o[i].valid_time <= max_gap {
                        o[i + 1].valid_time - o[i].valid_time
                    } else {
                        0
                    },
            ),
        ),
    decreases n,
{
    let f = |i: int|
        if 0 < o[i + 1].valid_time - o[i].valid_time && o[i + 1].valid_time - o[i].valid_time
            <= max_gap {
            o[i + 1].valid_time - o[i].valid_time
        } else {
            0
        };
    let all = Seq::new(n, f);
    if n > 0 {
        let m = (n - 1) as nat;
        lemma_gaps(o, max_gap, m);
        assert(all.drop_last() =~= Seq::new(m, f));
        let some = o.take(n as int + 1);
        assert(some.drop_last() =~= o.take(n as int));
        assert(some[some.len() - 2] == o[n - 1]);
        assert(some.last() == o[n as int]);
    } else {
        assert(all =~= Seq::<int>::empty());
    }
}

/// Whatever buckets the calendar gives, every value in a bucket held between a point and
/// the next, and these are no further apart than the maximum gap: over a longer gap no
/// bucket holds anything.
pub proof fn calendar_buckets_hold_nothing_over_long_gaps(
    list: Seq<BucketParts>,
    o: Seq<Point>,
    max_gap: int,
    bounds: Seq<(i64, i64)>,
    found: Seq<(i64, i64)>,
    b: int,
    h: int,
)
    requires
        max_gap <= i64::MAX,
        calendar_rolled_up(list, o, max_gap, bounds, found),
        0 <= b < list.len(),
        0 <= h < list[b].holds@.len(),
    ensures
        exists|k: int, from: int| #[trigger]
            lies_between(o, k, max_gap, list[b].start as int, list[b].holds@[h], from),
{
    let pieces = all_pieces(o, 0, max_gap, found)->Some_0;
    let hold = list[b].holds@[h];
    lemma_pieces_sound(o, 0, max_gap, found, found);
    assert(list[b].holds@ == holds_placed(pieces, list[b].start));
    let j = lemma_placed_piece(pieces, list[b].start, h);
    assert(some_sound(o, max_gap, pieces[j], found));
    let (k, from) = choose|k: int, from: int| #[trigger]
        sound_piece(o, max_gap, pieces[j], k, from, found);
    assert(lies_between(o, k, max_gap, list[b].start as int, hold, from));
}

/// Whatever buckets the calendar gives, all values in all buckets together held for exactly
/// the sum of those differences of neighbouring points that are positive and not longer
/// than the maximum gap.
pub proof fn calendar_rollups_bridge_short_gaps_alone(
    list: Seq<BucketParts>,
    o: Seq<Point>,
    max_gap: int,
    bounds: Seq<(i64, i64)>,
    found: Seq<(i64, i64)>,
)
    requires
        max_gap <= i64::MAX,
        calendar_rolled_up(list, o, max_gap, bounds, found),
    ensures
        o.len() > 0 ==> sum_of(Seq::new(list.len(), |b: int| time_held(list[b]))) == sum_of(
            Seq::new(
                (o.len() - 1) as nat,
                |i: int|
                    if 0 < o[i + 1].valid_time - o[i].valid_time && o[i + 1].valid_time
                        - o[i].valid_time <= max_gap {
                        o[i + 1].valid_time - o[i].valid_time
                    } else {
                        0
                    },
            ),
        ),
        o.len() == 0 ==> list.len() == 0,
{
    let pieces = all_pieces(o, 0, max_gap, found)->Some_0;
    assert forall|j: int| 0 <= j < pieces.len() implies listed(
        list,
        (#[trigger] pieces[j]).bucket,
    ) by {
        lemma_piece_ends(bounds, pieces, j);
    }
    lemma_pieces_placed(list, pieces);
    lemma_times_held(list, pieces, list.len());
    held_time_is_whole(o, max_gap, found);
    if o.len() > 0 {
        assert(o.take(o.len() as int) =~= o);
        lemma_gaps(o, max_gap, (o.len() - 1) as nat);
    } else if list.len() > 0 {
        let s = list[0].start;
        lemma_edges(bounds, pieces, s);
    }
}

} // verus!
