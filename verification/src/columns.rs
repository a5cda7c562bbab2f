//! Column encoding of the points of one series: seven columns, each behind its
//! length. Times are stored as differences of differences, the other times as
//! distances, values as the bits that change, and all but the first time and
//! value as variable-length integers.
use crate::bytes::{put_bytes, put_le, read_le};
#[allow(unused_imports)]
use crate::bytes::{
    bits_of_i64, from_le, i64_of_bits, le, lemma_from_le_round_trip, lemma_i64_bits,
    lemma_i64_from_bits, lemma_le_len, lemma_le_round_trip, lemma_pow256_values, pow256,
};
use crate::model::{FloatBits, Point};
use crate::varint::{put_signed, put_varint, take_varint};
#[allow(unused_imports)]
use crate::varint::{
    lemma_varint_len, lemma_varints_at, lemma_varints_len, lemma_varints_prefix, lemma_zigzag,
    scan_varint, unzigzag, varint, varints, zigzag,
};
use vstd::prelude::*;

verus! {

pub const COLUMN_COUNT: usize = 7;

/// Whether an integer fits an `i64`.
pub open spec fn fits(v: int) -> bool {
    i64::MIN <= v <= i64::MAX
}

/// The step from the time before `i`: at the second point the distance, behind
/// it the change of the distance.
pub open spec fn time_step(p: Seq<Point>, i: int) -> int {
    if i <= 1 {
        p[i].valid_time - p[i - 1].valid_time
    } else {
        (p[i].valid_time - p[i - 1].valid_time) - (p[i - 1].valid_time - p[i - 2].valid_time)
    }
}

/// Whether the distance of point `i` from the one before, and its change, fit.
pub open spec fn step_fits(p: Seq<Point>, i: int) -> bool {
    fits(p[i].valid_time - p[i - 1].valid_time) && fits(time_step(p, i))
}

/// Whether every distance that the columns store fits an `i64`.
pub open spec fn encodable(p: Seq<Point>) -> bool {
    &&& forall|i: int| 1 <= i < p.len() ==> #[trigger] step_fits(p, i)
    &&& forall|i: int|
        0 <= i < p.len() ==> fits((#[trigger] p[i]).valid_time_end - p[i].valid_time) && fits(
            p[i].knowledge_time - p[i].valid_time,
        ) && fits(p[i].change_time - p[i].knowledge_time)
}

pub open spec fn time_steps(p: Seq<Point>) -> Seq<nat> {
    Seq::new((p.len() - 1) as nat, |i: int| zigzag(time_step(p, i + 1)))
}

pub open spec fn end_gaps(p: Seq<Point>) -> Seq<nat> {
    Seq::new(p.len(), |i: int| zigzag(p[i].valid_time_end - p[i].valid_time))
}

pub open spec fn knowledge_gaps(p: Seq<Point>) -> Seq<nat> {
    Seq::new(p.len(), |i: int| zigzag(p[i].knowledge_time - p[i].valid_time))
}

pub open spec fn change_gaps(p: Seq<Point>) -> Seq<nat> {
    Seq::new(p.len(), |i: int| zigzag(p[i].change_time - p[i].knowledge_time))
}

pub open spec fn run_ids(p: Seq<Point>) -> Seq<nat> {
    Seq::new(p.len(), |i: int| p[i].run_id as nat)
}

pub open spec fn value_steps(p: Seq<Point>) -> Seq<nat> {
    Seq::new((p.len() - 1) as nat, |i: int| (p[i + 1].value.0 ^ p[i].value.0) as nat)
}

/// Quality and flags of each point, in turn.
pub open spec fn marks(p: Seq<Point>) -> Seq<nat> {
    Seq::new(
        2 * p.len(),
        |i: int|
            if i % 2 == 0 {
                p[i / 2].quality as nat
            } else {
                p[i / 2].flags as nat
            },
    )
}

/// The bytes of column `k`.
pub open spec fn column(k: int, p: Seq<Point>) -> Seq<u8> {
    if k == 0 {
        le(bits_of_i64(p[0].valid_time), 8) + varints(time_steps(p))
    } else if k == 1 {
        varints(end_gaps(p))
    } else if k == 2 {
        varints(knowledge_gaps(p))
    } else if k == 3 {
        varints(change_gaps(p))
    } else if k == 4 {
        varints(run_ids(p))
    } else if k == 5 {
        le(p[0].value.0 as nat, 8) + varints(value_steps(p))
    } else {
        varints(marks(p))
    }
}

/// The first `n` columns, each behind its length.
pub open spec fn framed_columns(p: Seq<Point>, n: nat) -> Seq<u8>
    decreases n,
{
    if n == 0 {
        Seq::empty()
    } else {
        framed_columns(p, (n - 1) as nat) + le(column(n - 1, p).len(), 4) + column(n - 1, p)
    }
}

/// The bytes of a block of points.
pub open spec fn encoded_columns(p: Seq<Point>) -> Seq<u8> {
    framed_columns(p, 7)
}

/// Why a block of points cannot be encoded, if it cannot.
pub open spec fn encode_fault(p: Seq<Point>) -> Option<&'static str> {
    if !encodable(p) {
        Some("timestamp delta overflows i64")
    } else if exists|k: int| 0 <= k < 7 && (#[trigger] column(k, p)).len() > u32::MAX {
        Some("segment column is too large")
    } else {
        None
    }
}

// Bounds on the size of a block.

/// The smallest size of `points` encoded points: seven lengths, eight bytes for
/// the first time and the first value, and one byte for everything else.
pub open spec fn minimum_bytes(points: nat) -> nat {
    42 + 8 * points
}

/// The largest size of `points` encoded points that a reader accepts.
pub open spec fn maximum_bytes(points: nat) -> nat {
    28 + 89 * points
}

/// The smallest possible encoded size of `points` points.
pub fn minimum_encoded_bytes(points: u64) -> (bytes: u64)
    requires
        points <= u32::MAX,
    ensures
        bytes == minimum_bytes(points as nat),
{
    42 + 8 * points
}

/// The largest possible encoded size of `points` points.
pub fn maximum_encoded_bytes(points: u64) -> (bytes: u64)
    requires
        points <= u32::MAX,
    ensures
        bytes == maximum_bytes(points as nat),
{
    28 + 89 * points
}

/// The bounds on each column.
proof fn lemma_column_len(k: int, p: Seq<Point>)
    requires
        0 <= k < 7,
        p.len() > 0,
        encodable(p),
    ensures
        k == 0 ==> p.len() + 7 <= column(k, p).len() <= 10 * p.len(),
        1 <= k <= 3 ==> p.len() <= column(k, p).len() <= 10 * p.len(),
        k == 4 ==> p.len() <= column(k, p).len() <= 19 * p.len(),
        k == 5 ==> p.len() + 7 <= column(k, p).len() <= 10 * p.len(),
        k == 6 ==> 2 * p.len() <= column(k, p).len() <= 10 * p.len(),
{
    lemma_le_len(bits_of_i64(p[0].valid_time), 8);
    lemma_le_len(p[0].value.0 as nat, 8);
    if k == 0 {
        assert forall|i: int| 0 <= i < time_steps(p).len() implies #[trigger] time_steps(p)[i]
            <= u64::MAX by {
            assert(step_fits(p, i + 1));
        }
        lemma_varints_len(time_steps(p), 10);
    } else if k == 1 {
        assert forall|i: int| 0 <= i < p.len() implies #[trigger] end_gaps(p)[i] <= u64::MAX by {
            let q = p[i];
        }
        lemma_varints_len(end_gaps(p), 10);
    } else if k == 2 {
        assert forall|i: int| 0 <= i < p.len() implies #[trigger] knowledge_gaps(p)[i]
            <= u64::MAX by {
            let q = p[i];
        }
        lemma_varints_len(knowledge_gaps(p), 10);
    } else if k == 3 {
        assert forall|i: int| 0 <= i < p.len() implies #[trigger] change_gaps(p)[i] <= u64::MAX by {
            let q = p[i];
        }
        lemma_varints_len(change_gaps(p), 10);
    } else if k == 4 {
        lemma_varints_len(run_ids(p), 19);
    } else if k == 5 {
        lemma_varints_len(value_steps(p), 10);
    } else {
        lemma_varints_len(marks(p), 5);
    }
}

/// The writer keeps the bounds that the reader relies on, for any points.
pub proof fn encoded_size_bounds(p: Seq<Point>)
    requires
        p.len() > 0,
        encodable(p),
    ensures
        minimum_bytes(p.len()) <= encoded_columns(p).len() <= maximum_bytes(p.len()),
        p.len() <= 262144 ==> encode_fault(p) is None,
{
    reveal_with_fuel(framed_columns, 8);
    lemma_column_len(0, p);
    lemma_column_len(1, p);
    lemma_column_len(2, p);
    lemma_column_len(3, p);
    lemma_column_len(4, p);
    lemma_column_len(5, p);
    lemma_column_len(6, p);
    lemma_le_len(column(0, p).len(), 4);
    lemma_le_len(column(1, p).len(), 4);
    lemma_le_len(column(2, p).len(), 4);
    lemma_le_len(column(3, p).len(), 4);
    lemma_le_len(column(4, p).len(), 4);
    lemma_le_len(column(5, p).len(), 4);
    lemma_le_len(column(6, p).len(), 4);
    assert forall|k: int| 0 <= k < 7 && p.len() <= 262144 implies (#[trigger] column(k, p)).len()
        <= u32::MAX by {
        lemma_column_len(k, p);
    }
}

// Writing.

fn checked_delta(left: i64, right: i64) -> (delta: Option<i64>)
    ensures
        delta is Some <==> fits(left - right),
        delta matches Some(d) ==> d == left - right,
{
    left.checked_sub(right)
}

proof fn lemma_varints_push(xs: Seq<nat>, i: int)
    requires
        0 <= i < xs.len(),
    ensures
        varints(xs.take(i + 1)) == varints(xs.take(i)) + varint(xs[i]),
{
    assert(xs.take(i + 1).drop_last() =~= xs.take(i));
}

fn time_column(points: &[Point]) -> (outcome: Option<Vec<u8>>)
    requires
        points@.len() > 0,
    ensures
        outcome is Some <==> (forall|i: int|
            1 <= i < points@.len() ==> #[trigger] step_fits(points@, i)),
        outcome matches Some(bytes) ==> bytes@ == column(0, points@),
{
    let ghost p = points@;
    let ghost xs = time_steps(p);
    let mut out: Vec<u8> = Vec::new();
    proof {
        lemma_i64_bits(points[0].valid_time);
    }
    put_le(&mut out, points[0].valid_time as u64 as u128, 8);
    let ghost head = le(bits_of_i64(p[0].valid_time), 8);
    assert(out@ =~= head + varints(xs.take(0)));
    let mut previous: i64 = 0;
    let mut i: usize = 1;
    while i < points.len()
        invariant
            p == points@,
            xs == time_steps(p),
            1 <= i <= p.len(),
            i >= 2 ==> previous == p[i - 1].valid_time - p[i - 2].valid_time,
            i == 1 ==> previous == 0,
            out@ == head + varints(xs.take(i - 1)),
            forall|j: int| 1 <= j < i ==> #[trigger] step_fits(p, j),
        decreases p.len() - i,
    {
        let delta: i64 = match checked_delta(points[i].valid_time, points[i - 1].valid_time) {
            Some(delta) => delta,
            None => {
                assert(!step_fits(p, i as int));
                return None;
            },
        };
        let step: i64 = match checked_delta(delta, previous) {
            Some(step) => step,
            None => {
                assert(!step_fits(p, i as int));
                return None;
            },
        };
        put_signed(&mut out, step);
        proof {
            assert(step == time_step(p, i as int));
            lemma_varints_push(xs, i - 1);
            assert(out@ =~= head + varints(xs.take(i as int)));
        }
        previous = delta;
        i = i + 1;
    }
    assert(xs.take(p.len() - 1) =~= xs);
    Some(out)
}

/// The three columns of distances.
struct GapColumns {
    ends: Vec<u8>,
    knowledge: Vec<u8>,
    changes: Vec<u8>,
}

fn gap_columns(points: &[Point]) -> (outcome: Option<GapColumns>)
    ensures
        outcome is Some <==> (forall|i: int|
            0 <= i < points@.len() ==> fits(
                (#[trigger] points@[i]).valid_time_end - points@[i].valid_time,
            ) && fits(points@[i].knowledge_time - points@[i].valid_time) && fits(
                points@[i].change_time - points@[i].knowledge_time,
            )),
        outcome matches Some(c) ==> c.ends@ == column(1, points@) && c.knowledge@ == column(
            2,
            points@,
        ) && c.changes@ == column(3, points@),
{
    let ghost p = points@;
    let mut ends: Vec<u8> = Vec::new();
    let mut knowledge: Vec<u8> = Vec::new();
    let mut changes: Vec<u8> = Vec::new();
    let mut i: usize = 0;
    while i < points.len()
        invariant
            p == points@,
            i <= p.len(),
            ends@ == varints(end_gaps(p).take(i as int)),
            knowledge@ == varints(knowledge_gaps(p).take(i as int)),
            changes@ == varints(change_gaps(p).take(i as int)),
            forall|j: int|
                0 <= j < i ==> fits((#[trigger] p[j]).valid_time_end - p[j].valid_time) && fits(
                    p[j].knowledge_time - p[j].valid_time,
                ) && fits(p[j].change_time - p[j].knowledge_time),
        decreases p.len() - i,
    {
        let point = points[i];
        assert(point == p[i as int]);
        let end: i64 = match checked_delta(point.valid_time_end, point.valid_time) {
            Some(delta) => delta,
            None => {
                return None;
            },
        };
        let known: i64 = match checked_delta(point.knowledge_time, point.valid_time) {
            Some(delta) => delta,
            None => {
                return None;
            },
        };
        let change: i64 = match checked_delta(point.change_time, point.knowledge_time) {
            Some(delta) => delta,
            None => {
                return None;
            },
        };
        put_signed(&mut ends, end);
        put_signed(&mut knowledge, known);
        put_signed(&mut changes, change);
        proof {
            lemma_varints_push(end_gaps(p), i as int);
            lemma_varints_push(knowledge_gaps(p), i as int);
            lemma_varints_push(change_gaps(p), i as int);
        }
        i = i + 1;
    }
    assert(end_gaps(p).take(p.len() as int) =~= end_gaps(p));
    assert(knowledge_gaps(p).take(p.len() as int) =~= knowledge_gaps(p));
    assert(change_gaps(p).take(p.len() as int) =~= change_gaps(p));
    Some(GapColumns { ends, knowledge, changes })
}

fn run_column(points: &[Point]) -> (out: Vec<u8>)
    ensures
        out@ == column(4, points@),
{
    let ghost p = points@;
    let mut out: Vec<u8> = Vec::new();
    let mut i: usize = 0;
    while i < points.len()
        invariant
            p == points@,
            i <= p.len(),
            out@ == varints(run_ids(p).take(i as int)),
        decreases p.len() - i,
    {
        put_varint(&mut out, points[i].run_id);
        proof {
            lemma_varints_push(run_ids(p), i as int);
        }
        i = i + 1;
    }
    assert(run_ids(p).take(p.len() as int) =~= run_ids(p));
    out
}

fn value_column(points: &[Point]) -> (out: Vec<u8>)
    requires
        points@.len() > 0,
    ensures
        out@ == column(5, points@),
{
    let ghost p = points@;
    let ghost xs = value_steps(p);
    let mut out: Vec<u8> = Vec::new();
    put_le(&mut out, points[0].value.0 as u128, 8);
    let ghost head = le(p[0].value.0 as nat, 8);
    assert(out@ =~= head + varints(xs.take(0)));
    let mut i: usize = 1;
    while i < points.len()
        invariant
            p == points@,
            xs == value_steps(p),
            1 <= i <= p.len(),
            out@ == head + varints(xs.take(i - 1)),
        decreases p.len() - i,
    {
        put_varint(&mut out, (points[i].value.0 ^ points[i - 1].value.0) as u128);
        proof {
            lemma_varints_push(xs, i - 1);
            assert(out@ =~= head + varints(xs.take(i as int)));
        }
        i = i + 1;
    }
    assert(xs.take(p.len() - 1) =~= xs);
    out
}

fn mark_column(points: &[Point]) -> (out: Vec<u8>)
    ensures
        out@ == column(6, points@),
{
    let ghost p = points@;
    let ghost xs = marks(p);
    let mut out: Vec<u8> = Vec::new();
    let mut i: usize = 0;
    while i < points.len()
        invariant
            p == points@,
            xs == marks(p),
            i <= p.len(),
            out@ == varints(xs.take(2 * i)),
        decreases p.len() - i,
    {
        put_varint(&mut out, points[i].quality as u128);
        put_varint(&mut out, points[i].flags as u128);
        proof {
            assert((2 * i) / 2 == i && (2 * i + 1) / 2 == i);
            lemma_varints_push(xs, 2 * i);
            lemma_varints_push(xs, 2 * i + 1);
            assert(out@ =~= varints(xs.take(2 * (i + 1))));
        }
        i = i + 1;
    }
    assert(xs.take(xs.len() as int) =~= xs);
    out
}

fn put_column(out: &mut Vec<u8>, column: &Vec<u8>) -> (fit: bool)
    ensures
        fit == (column@.len() <= u32::MAX),
        fit ==> final(out)@ == old(out)@ + le(column@.len(), 4) + column@,
{
    if column.len() > 0xffff_ffff {
        return false;
    }
    put_le(out, column.len() as u128, 4);
    put_bytes(out, column.as_slice());
    true
}

/// Encodes the points of one block.
pub fn encode_columns(points: &[Point]) -> (outcome: Result<Vec<u8>, &'static str>)
    requires
        points@.len() > 0,
    ensures
        match outcome {
            Ok(bytes) => encode_fault(points@) is None && bytes@ == encoded_columns(points@),
            Err(e) => encode_fault(points@) == Some(e),
        },
{
    let ghost p = points@;
    let times = match time_column(points) {
        Some(column) => column,
        None => {
            return Err("timestamp delta overflows i64");
        },
    };
    let gaps = match gap_columns(points) {
        Some(columns) => columns,
        None => {
            return Err("timestamp delta overflows i64");
        },
    };
    let runs = run_column(points);
    let values = value_column(points);
    let mark = mark_column(points);
    let mut out: Vec<u8> = Vec::new();
    proof {
        reveal_with_fuel(framed_columns, 8);
    }
    if !put_column(&mut out, &times) {
        assert(column(0, p).len() > u32::MAX);
        return Err("segment column is too large");
    }
    assert(out@ =~= framed_columns(p, 1));
    if !put_column(&mut out, &gaps.ends) {
        assert(column(1, p).len() > u32::MAX);
        return Err("segment column is too large");
    }
    assert(out@ =~= framed_columns(p, 2));
    if !put_column(&mut out, &gaps.knowledge) {
        assert(column(2, p).len() > u32::MAX);
        return Err("segment column is too large");
    }
    if !put_column(&mut out, &gaps.changes) {
        assert(column(3, p).len() > u32::MAX);
        return Err("segment column is too large");
    }
    if !put_column(&mut out, &runs) {
        assert(column(4, p).len() > u32::MAX);
        return Err("segment column is too large");
    }
    if !put_column(&mut out, &values) {
        assert(column(5, p).len() > u32::MAX);
        return Err("segment column is too large");
    }
    if !put_column(&mut out, &mark) {
        assert(column(6, p).len() > u32::MAX);
        return Err("segment column is too large");
    }
    assert forall|k: int| 0 <= k < 7 implies (#[trigger] column(k, p)).len() <= u32::MAX by {
        assert(k == 0 || k == 1 || k == 2 || k == 3 || k == 4 || k == 5 || k == 6);
    }
    Ok(out)
}

// Reading.

/// A position in each column, or the first fault.
pub struct Reader {
    pub at: Seq<usize>,
    pub fault: Option<&'static str>,
}

/// Raises `reason` where a condition fails.
pub open spec fn demand(r: Reader, holds: bool, reason: &'static str) -> Reader {
    if r.fault is Some || holds {
        r
    } else {
        Reader { fault: Some(reason), ..r }
    }
}

/// The next number of column `k`, of at most `max` bytes.
pub open spec fn read_number(cols: Seq<Seq<u8>>, r: Reader, k: int, max: nat) -> (nat, Reader) {
    if r.fault is Some {
        (0, r)
    } else {
        match scan_varint(cols[k], r.at[k] as int, 0, max) {
            Ok((v, end)) => (v, Reader { at: r.at.update(k, end as usize), ..r }),
            Err(e) => (0, Reader { fault: Some(e), ..r }),
        }
    }
}

/// The next unsigned number of column `k`.
pub open spec fn read_u64(cols: Seq<Seq<u8>>, r: Reader, k: int) -> (u64, Reader) {
    let (v, r) = read_number(cols, r, k, 10);
    (v as u64, demand(r, v <= u64::MAX, "u64 varint overflows"))
}

pub open spec fn read_u128(cols: Seq<Seq<u8>>, r: Reader, k: int) -> (u128, Reader) {
    let (v, r) = read_number(cols, r, k, 19);
    (v as u128, r)
}

/// The next signed number of column `k`.
pub open spec fn read_i64(cols: Seq<Seq<u8>>, r: Reader, k: int) -> (i64, Reader) {
    let (v, r) = read_u64(cols, r, k);
    (unzigzag(v as nat) as i64, r)
}

/// The first eight bytes of column `k` as a number.
pub open spec fn read_first(cols: Seq<Seq<u8>>, r: Reader, k: int, reason: &'static str) -> (
    nat,
    Reader,
) {
    let r = demand(r, cols[k].len() >= 8, reason);
    if r.fault is Some {
        (0, r)
    } else {
        (from_le(cols[k].subrange(0, 8)), Reader { at: r.at.update(k, 8), ..r })
    }
}

/// A time moved by a distance.
pub open spec fn moved(r: Reader, base: i64, delta: i64, reason: &'static str) -> (i64, Reader) {
    ((base + delta) as i64, demand(r, fits(base + delta), reason))
}

/// The first `n` times, the last distance, and the position behind them.
pub open spec fn read_times(cols: Seq<Seq<u8>>, n: nat) -> (Seq<i64>, i64, Reader)
    decreases n,
{
    if n <= 1 {
        let start = Reader { at: Seq::new(7, |k: int| 0usize), fault: None };
        let (bits, r) = read_first(cols, start, 0, "truncated first timestamp");
        (seq![i64_of_bits(bits)], 0, r)
    } else {
        let (times, delta, r) = read_times(cols, (n - 1) as nat);
        let (step, r) = read_i64(cols, r, 0);
        let (delta, r) = moved(r, delta, step, "timestamp delta-of-delta overflows");
        let (next, r) = moved(
            r,
            times.last(),
            delta,
            if n == 2 {
                "timestamp delta overflows"
            } else {
                "timestamp overflows"
            },
        );
        (times.push(next), delta, r)
    }
}

/// The value bits of a point, given the points before it.
pub open spec fn read_value(cols: Seq<Seq<u8>>, r: Reader, before: Seq<Point>) -> (
    FloatBits,
    Reader,
) {
    if before.len() == 0 {
        let (bits, r) = read_first(cols, r, 5, "truncated first value");
        (FloatBits(bits as u64), r)
    } else {
        let (change, r) = read_u64(cols, r, 5);
        (FloatBits(before.last().value.0 ^ change), r)
    }
}

/// The point behind `before`, whose time is known.
pub open spec fn read_point(
    cols: Seq<Seq<u8>>,
    r: Reader,
    before: Seq<Point>,
    series_id: u64,
    valid_time: i64,
) -> (Point, Reader) {
    let (end_delta, r) = read_i64(cols, r, 1);
    let (knowledge_delta, r) = read_i64(cols, r, 2);
    let (knowledge_time, r) = moved(
        r,
        valid_time,
        knowledge_delta,
        "knowledge timestamp overflows",
    );
    let (change_delta, r) = read_i64(cols, r, 3);
    let (run_id, r) = read_u128(cols, r, 4);
    let (value, r) = read_value(cols, r, before);
    let (quality, r) = read_u64(cols, r, 6);
    let r = demand(r, quality <= u32::MAX, "quality exceeds u32");
    let (flags, r) = read_u64(cols, r, 6);
    let r = demand(r, flags <= u32::MAX, "flags exceed u32");
    let (valid_time_end, r) = moved(r, valid_time, end_delta, "valid end timestamp overflows");
    let (change_time, r) = moved(r, knowledge_time, change_delta, "change timestamp overflows");
    (
        Point {
            series_id,
            valid_time,
            valid_time_end,
            knowledge_time,
            change_time,
            run_id,
            value,
            quality: quality as u32,
            flags: flags as u32,
        },
        r,
    )
}

/// The first `n` points, whose times are known.
pub open spec fn read_points(
    cols: Seq<Seq<u8>>,
    r: Reader,
    series_id: u64,
    times: Seq<i64>,
    n: nat,
) -> (Seq<Point>, Reader)
    decreases n,
{
    if n == 0 {
        (Seq::empty(), r)
    } else {
        let (before, r) = read_points(cols, r, series_id, times, (n - 1) as nat);
        let (point, r) = read_point(cols, r, before, series_id, times[n - 1]);
        (before.push(point), r)
    }
}

/// The columns from number `k` on, which start at `at`.
pub open spec fn split_from(b: Seq<u8>, at: int, k: nat) -> Result<Seq<Seq<u8>>, &'static str>
    decreases 7 - k,
{
    if k >= 7 {
        if at == b.len() {
            Ok(Seq::empty())
        } else {
            Err("trailing segment column bytes")
        }
    } else if at + 4 > b.len() {
        Err("truncated segment column length")
    } else {
        let length = from_le(b.subrange(at, at + 4));
        if at + 4 + length > usize::MAX {
            Err("segment column length overflows")
        } else if at + 4 + length > b.len() {
            Err("truncated segment column")
        } else {
            match split_from(b, at + 4 + length, k + 1) {
                Ok(rest) => Ok(seq![b.subrange(at + 4, at + 4 + length)] + rest),
                Err(e) => Err(e),
            }
        }
    }
}

/// Whether all of column `k` has been read.
pub open spec fn consumed(cols: Seq<Seq<u8>>, r: Reader, k: int) -> bool {
    r.at[k] == cols[k].len()
}

/// The points of a block, or the first thing that is wrong with it.
pub open spec fn decoded_columns(b: Seq<u8>, series_id: u64, count: nat) -> Result<
    Seq<Point>,
    &'static str,
> {
    if count == 0 {
        Err("zero-point segment block")
    } else if minimum_bytes(count) > b.len() {
        Err("block point count exceeds payload capacity")
    } else {
        match split_from(b, 0, 0) {
            Err(e) => Err(e),
            Ok(cols) => {
                let (times, delta, r) = read_times(cols, count);
                let r = demand(r, consumed(cols, r, 0), "trailing timestamp column bytes");
                let (points, r) = read_points(cols, r, series_id, times, count);
                let r = demand(
                    r,
                    forall|k: int| 1 <= k < 7 ==> #[trigger] consumed(cols, r, k),
                    "trailing point column bytes",
                );
                match r.fault {
                    Some(e) => Err(e),
                    None => Ok(points),
                }
            },
        }
    }
}

/// A fault among the points stays the same fault.
proof fn lemma_points_fault(
    cols: Seq<Seq<u8>>,
    r: Reader,
    series_id: u64,
    times: Seq<i64>,
    m: nat,
    n: nat,
)
    requires
        m <= n,
        read_points(cols, r, series_id, times, m).1.fault is Some,
    ensures
        read_points(cols, r, series_id, times, n).1.fault == read_points(
            cols,
            r,
            series_id,
            times,
            m,
        ).1.fault,
    decreases n,
{
    if m < n {
        lemma_points_fault(cols, r, series_id, times, m, (n - 1) as nat);
    }
}

/// A fault among the times stays the same fault.
proof fn lemma_times_fault(cols: Seq<Seq<u8>>, m: nat, n: nat)
    requires
        1 <= m <= n,
        read_times(cols, m).2.fault is Some,
    ensures
        read_times(cols, n).2.fault == read_times(cols, m).2.fault,
    decreases n,
{
    if m < n {
        lemma_times_fault(cols, m, (n - 1) as nat);
    }
}

fn split_columns(encoded: &[u8]) -> (outcome: Result<Vec<Vec<u8>>, &'static str>)
    ensures
        match outcome {
            Ok(columns) => split_from(encoded@, 0, 0) == Ok::<Seq<Seq<u8>>, &'static str>(
                columns.deep_view(),
            ) && columns@.len() == 7,
            Err(e) => split_from(encoded@, 0, 0) == Err::<Seq<Seq<u8>>, &'static str>(e),
        },
{
    let ghost b = encoded@;
    let mut columns: Vec<Vec<u8>> = Vec::new();
    assert(columns.deep_view() =~= Seq::<Seq<u8>>::empty());
    let total: usize = encoded.len();
    let mut at: usize = 0;
    let mut k: usize = 0;
    while k < COLUMN_COUNT
        invariant
            b == encoded@,
            k <= 7,
            at <= b.len() == total,
            columns@.len() == k,
            match split_from(b, at as int, k as nat) {
                Ok(rest) => split_from(b, 0, 0) == Ok::<Seq<Seq<u8>>, &'static str>(
                    columns.deep_view() + rest,
                ),
                Err(e) => split_from(b, 0, 0) == Err::<Seq<Seq<u8>>, &'static str>(e),
            },
        decreases 7 - k,
    {
        if encoded.len() - at < 4 {
            return Err("truncated segment column length");
        }
        proof {
            lemma_pow256_values();
        }
        let length: usize = read_le(encoded, at, 4) as usize;
        let start: usize = at + 4;
        let end: usize = match start.checked_add(length) {
            Some(end) => end,
            None => {
                return Err("segment column length overflows");
            },
        };
        if end > encoded.len() {
            return Err("truncated segment column");
        }
        let mut column: Vec<u8> = Vec::new();
        put_bytes(&mut column, &encoded[start..end]);
        let ghost before = columns.deep_view();
        columns.push(column);
        proof {
            let found = b.subrange(start as int, end as int);
            assert(column@ =~= found);
            assert(column.deep_view() =~= found);
            assert(columns.deep_view() =~= before.push(found));
            match split_from(b, end as int, (k + 1) as nat) {
                Ok(rest) => {
                    assert(before + (seq![found] + rest) =~= columns.deep_view() + rest);
                },
                Err(e) => {},
            }
        }
        at = end;
        k = k + 1;
    }
    if at != encoded.len() {
        return Err("trailing segment column bytes");
    }
    assert(columns.deep_view() + Seq::<Seq<u8>>::empty() =~= columns.deep_view());
    Ok(columns)
}

/// Whether a reading function did what the model says.
spec fn step<T>(outcome: Result<T, &'static str>, model: (T, Reader), cursors: Seq<usize>) -> bool {
    match outcome {
        Ok(v) => model == (v, Reader { at: cursors, fault: None }),
        Err(e) => model.1.fault == Some(e),
    }
}

/// Whether each position lies in its column.
spec fn in_columns(cols: Seq<Seq<u8>>, cursors: Seq<usize>) -> bool {
    &&& cols.len() == 7
    &&& cursors.len() == 7
    &&& forall|k: int| 0 <= k < 7 ==> #[trigger] cursors[k] <= cols[k].len() <= usize::MAX
}

spec fn reader(cursors: Seq<usize>) -> Reader {
    Reader { at: cursors, fault: None }
}

fn next_number(columns: &Vec<Vec<u8>>, cursors: &mut Vec<usize>, k: usize, max: usize) -> (outcome:
    Result<u128, &'static str>)
    requires
        in_columns(columns.deep_view(), old(cursors)@),
        k < 7,
        max <= 19,
    ensures
        in_columns(columns.deep_view(), final(cursors)@),
        match outcome {
            Ok(v) => read_number(columns.deep_view(), reader(old(cursors)@), k as int, max as nat)
                == (v as nat, reader(final(cursors)@)),
            Err(e) => read_number(
                columns.deep_view(),
                reader(old(cursors)@),
                k as int,
                max as nat,
            ).1.fault == Some(e),
        },
{
    let at: usize = cursors[k];
    assert(columns.deep_view()[k as int] =~= columns@[k as int]@);
    let (v, end) = take_varint(columns[k].as_slice(), at, max)?;
    cursors.set(k, end);
    Ok(v)
}

fn read_unsigned_u64(columns: &Vec<Vec<u8>>, cursors: &mut Vec<usize>, k: usize) -> (outcome: Result<
    u64,
    &'static str,
>)
    requires
        in_columns(columns.deep_view(), old(cursors)@),
        k < 7,
    ensures
        in_columns(columns.deep_view(), final(cursors)@),
        step(outcome, read_u64(columns.deep_view(), reader(old(cursors)@), k as int), final(cursors)@),
{
    let v: u128 = next_number(columns, cursors, k, 10)?;
    if v > u64::MAX as u128 {
        return Err("u64 varint overflows");
    }
    Ok(v as u64)
}

fn read_unsigned_u128(columns: &Vec<Vec<u8>>, cursors: &mut Vec<usize>, k: usize) -> (outcome:
    Result<u128, &'static str>)
    requires
        in_columns(columns.deep_view(), old(cursors)@),
        k < 7,
    ensures
        in_columns(columns.deep_view(), final(cursors)@),
        step(
            outcome,
            read_u128(columns.deep_view(), reader(old(cursors)@), k as int),
            final(cursors)@,
        ),
{
    let v: u128 = next_number(columns, cursors, k, 19)?;
    Ok(v)
}

fn read_signed(columns: &Vec<Vec<u8>>, cursors: &mut Vec<usize>, k: usize) -> (outcome: Result<
    i64,
    &'static str,
>)
    requires
        in_columns(columns.deep_view(), old(cursors)@),
        k < 7,
    ensures
        in_columns(columns.deep_view(), final(cursors)@),
        step(outcome, read_i64(columns.deep_view(), reader(old(cursors)@), k as int), final(cursors)@),
{
    let v: u64 = read_unsigned_u64(columns, cursors, k)?;
    if v % 2 == 0 {
        Ok((v / 2) as i64)
    } else {
        Ok(-((v / 2) as i64) - 1)
    }
}

fn move_time(base: i64, delta: i64, reason: &'static str) -> (outcome: Result<i64, &'static str>)
    ensures
        match outcome {
            Ok(v) => v == base + delta,
            Err(e) => !fits(base + delta) && e == reason,
        },
{
    match base.checked_add(delta) {
        Some(v) => Ok(v),
        None => Err(reason),
    }
}

#[verifier::loop_isolation(false)]
fn decode_times(columns: &Vec<Vec<u8>>, cursors: &mut Vec<usize>, count: usize) -> (outcome: Result<
    Vec<i64>,
    &'static str,
>)
    requires
        in_columns(columns.deep_view(), old(cursors)@),
        old(cursors)@ == Seq::new(7, |k: int| 0usize),
        count > 0,
    ensures
        in_columns(columns.deep_view(), final(cursors)@),
        match outcome {
            Ok(times) => read_times(columns.deep_view(), count as nat).0 == times@ && read_times(
                columns.deep_view(),
                count as nat,
            ).2 == reader(final(cursors)@) && times@.len() == count,
            Err(e) => read_times(columns.deep_view(), count as nat).2.fault == Some(e),
        },
{
    let ghost cols = columns.deep_view();
    assert(cols[0] =~= columns@[0]@);
    if columns[0].len() < 8 {
        proof {
            lemma_times_fault(cols, 1, count as nat);
        }
        return Err("truncated first timestamp");
    }
    proof {
        lemma_pow256_values();
    }
    let bits: u64 = read_le(columns[0].as_slice(), 0, 8) as u64;
    proof {
        lemma_i64_from_bits(bits);
    }
    cursors.set(0, 8);
    let mut times: Vec<i64> = Vec::new();
    times.push(bits as i64);
    assert(times@ =~= seq![i64_of_bits(bits as nat)]);
    let mut delta: i64 = 0;
    let mut n: usize = 1;
    while n < count
        invariant
            1 <= n <= count,
            in_columns(cols, cursors@),
            times@.len() == n,
            read_times(cols, n as nat) == (times@, delta, reader(cursors@)),
        decreases count - n,
    {
        let step: i64 = match read_signed(columns, cursors, 0) {
            Ok(step) => step,
            Err(e) => {
                proof {
                    lemma_times_fault(cols, (n + 1) as nat, count as nat);
                }
                return Err(e);
            },
        };
        delta = match move_time(delta, step, "timestamp delta-of-delta overflows") {
            Ok(delta) => delta,
            Err(e) => {
                proof {
                    lemma_times_fault(cols, (n + 1) as nat, count as nat);
                }
                return Err(e);
            },
        };
        let reason: &'static str = if n == 1 {
            "timestamp delta overflows"
        } else {
            "timestamp overflows"
        };
        let next: i64 = match move_time(times[n - 1], delta, reason) {
            Ok(next) => next,
            Err(e) => {
                proof {
                    lemma_times_fault(cols, (n + 1) as nat, count as nat);
                }
                return Err(e);
            },
        };
        times.push(next);
        n = n + 1;
    }
    Ok(times)
}

fn decode_point(
    columns: &Vec<Vec<u8>>,
    cursors: &mut Vec<usize>,
    before: &Vec<Point>,
    series_id: u64,
    valid_time: i64,
) -> (outcome: Result<Point, &'static str>)
    requires
        in_columns(columns.deep_view(), old(cursors)@),
    ensures
        in_columns(columns.deep_view(), final(cursors)@),
        step(
            outcome,
            read_point(
                columns.deep_view(),
                reader(old(cursors)@),
                before@,
                series_id,
                valid_time,
            ),
            final(cursors)@,
        ),
{
    let end_delta: i64 = read_signed(columns, cursors, 1)?;
    let knowledge_delta: i64 = read_signed(columns, cursors, 2)?;
    let knowledge_time: i64 = move_time(
        valid_time,
        knowledge_delta,
        "knowledge timestamp overflows",
    )?;
    let change_delta: i64 = read_signed(columns, cursors, 3)?;
    let run_id: u128 = read_unsigned_u128(columns, cursors, 4)?;
    let value: FloatBits = if before.len() == 0 {
        assert(columns.deep_view()[5] =~= columns@[5]@);
        if columns[5].len() < 8 {
            return Err("truncated first value");
        }
        proof {
            lemma_pow256_values();
        }
        let ghost was = cursors@;
        cursors.set(5, 8);
        assert forall|k: int| 0 <= k < 7 implies #[trigger] cursors@[k]
            <= columns.deep_view()[k].len() <= usize::MAX by {
            let c = was[k];
        }
        FloatBits(read_le(columns[5].as_slice(), 0, 8) as u64)
    } else {
        let change: u64 = read_unsigned_u64(columns, cursors, 5)?;
        FloatBits(before[before.len() - 1].value.0 ^ change)
    };
    let quality: u64 = read_unsigned_u64(columns, cursors, 6)?;
    if quality > u32::MAX as u64 {
        return Err("quality exceeds u32");
    }
    let flags: u64 = read_unsigned_u64(columns, cursors, 6)?;
    if flags > u32::MAX as u64 {
        return Err("flags exceed u32");
    }
    let valid_time_end: i64 = move_time(valid_time, end_delta, "valid end timestamp overflows")?;
    let change_time: i64 = move_time(knowledge_time, change_delta, "change timestamp overflows")?;
    Ok(
        Point {
            series_id,
            valid_time,
            valid_time_end,
            knowledge_time,
            change_time,
            run_id,
            value,
            quality: quality as u32,
            flags: flags as u32,
        },
    )
}

#[verifier::loop_isolation(false)]
fn decode_points(
    columns: &Vec<Vec<u8>>,
    cursors: &mut Vec<usize>,
    series_id: u64,
    times: &Vec<i64>,
) -> (outcome: Result<Vec<Point>, &'static str>)
    requires
        in_columns(columns.deep_view(), old(cursors)@),
    ensures
        in_columns(columns.deep_view(), final(cursors)@),
        match outcome {
            Ok(points) => read_points(
                columns.deep_view(),
                reader(old(cursors)@),
                series_id,
                times@,
                times@.len(),
            ) == (points@, reader(final(cursors)@)),
            Err(e) => read_points(
                columns.deep_view(),
                reader(old(cursors)@),
                series_id,
                times@,
                times@.len(),
            ).1.fault == Some(e),
        },
{
    let ghost cols = columns.deep_view();
    let ghost start = reader(cursors@);
    let mut points: Vec<Point> = Vec::new();
    let mut n: usize = 0;
    while n < times.len()
        invariant
            n <= times@.len(),
            in_columns(cols, cursors@),
            points@.len() == n,
            read_points(cols, start, series_id, times@, n as nat) == (points@, reader(cursors@)),
        decreases times@.len() - n,
    {
        match decode_point(columns, cursors, &points, series_id, times[n]) {
            Ok(point) => {
                points.push(point);
            },
            Err(e) => {
                proof {
                    lemma_points_fault(
                        cols,
                        start,
                        series_id,
                        times@,
                        (n + 1) as nat,
                        times@.len(),
                    );
                }
                return Err(e);
            },
        }
        n = n + 1;
    }
    Ok(points)
}

/// Decodes the points of one block.
pub fn decode_columns(encoded: &[u8], series_id: u64, count: u32) -> (outcome: Result<
    Vec<Point>,
    &'static str,
>)
    ensures
        match outcome {
            Ok(points) => decoded_columns(encoded@, series_id, count as nat) == Ok::<
                Seq<Point>,
                &'static str,
            >(points@),
            Err(e) => decoded_columns(encoded@, series_id, count as nat) == Err::<
                Seq<Point>,
                &'static str,
            >(e),
        },
{
    if count == 0 {
        return Err("zero-point segment block");
    }
    if minimum_encoded_bytes(count as u64) > encoded.len() as u64 {
        return Err("block point count exceeds payload capacity");
    }
    let columns: Vec<Vec<u8>> = split_columns(encoded)?;
    let ghost cols = columns.deep_view();
    let mut cursors: Vec<usize> = Vec::new();
    let mut i: usize = 0;
    while i < 7
        invariant
            i <= 7,
            columns@.len() == 7,
            cols == columns.deep_view(),
            cursors@ == Seq::new(i as nat, |k: int| 0usize),
            forall|k: int| 0 <= k < i ==> (#[trigger] cols[k]).len() <= usize::MAX,
        decreases 7 - i,
    {
        let length: usize = columns[i].len();
        assert(cols[i as int].len() == length);
        cursors.push(0);
        assert(cursors@ =~= Seq::new((i + 1) as nat, |k: int| 0usize));
        i = i + 1;
    }
    let times: Vec<i64> = match decode_times(&columns, &mut cursors, count as usize) {
        Ok(times) => times,
        Err(e) => {
            proof {
                let (ts, d, r) = read_times(cols, count as nat);
                lemma_points_fault(
                    cols,
                    demand(r, consumed(cols, r, 0), "trailing timestamp column bytes"),
                    series_id,
                    ts,
                    0,
                    count as nat,
                );
            }
            return Err(e);
        },
    };
    if cursors[0] != columns[0].len() {
        proof {
            assert(cols[0] =~= columns@[0]@);
            lemma_points_fault(
                cols,
                demand(reader(cursors@), false, "trailing timestamp column bytes"),
                series_id,
                times@,
                0,
                count as nat,
            );
        }
        return Err("trailing timestamp column bytes");
    }
    assert(cols[0] =~= columns@[0]@);
    let points: Vec<Point> = decode_points(&columns, &mut cursors, series_id, &times)?;
    let ghost r = reader(cursors@);
    let mut k: usize = 1;
    while k < 7
        invariant
            1 <= k <= 7,
            columns@.len() == 7,
            cursors@.len() == 7,
            r == reader(cursors@),
            cols == columns.deep_view(),
            forall|j: int| 1 <= j < k ==> #[trigger] consumed(cols, r, j),
            decoded_columns(encoded@, series_id, count as nat) == if forall|j: int|
                1 <= j < 7 ==> #[trigger] consumed(cols, r, j) {
                Ok::<Seq<Point>, &'static str>(points@)
            } else {
                Err("trailing point column bytes")
            },
        decreases 7 - k,
    {
        assert(cols[k as int].len() == columns@[k as int]@.len());
        if cursors[k] != columns[k].len() {
            assert(!consumed(cols, r, k as int));
            return Err("trailing point column bytes");
        }
        k = k + 1;
    }
    Ok(points)
}

// What is written is read back.

/// The seven columns of a block.
spec fn columns_of(p: Seq<Point>) -> Seq<Seq<u8>> {
    Seq::new(7, |k: int| column(k, p))
}

proof fn lemma_framed_prefix(p: Seq<Point>, k: nat)
    requires
        k <= 7,
    ensures
        framed_columns(p, k).len() <= encoded_columns(p).len(),
        encoded_columns(p).subrange(0, framed_columns(p, k).len() as int) == framed_columns(p, k),
    decreases 7 - k,
{
    if k < 7 {
        lemma_framed_prefix(p, k + 1);
        let shorter = framed_columns(p, k);
        let longer = framed_columns(p, k + 1);
        let all = encoded_columns(p);
        assert forall|i: int| 0 <= i < shorter.len() implies all[i] == shorter[i] by {
            assert(all.subrange(0, longer.len() as int)[i] == longer[i]);
        }
        assert(all.subrange(0, shorter.len() as int) =~= shorter);
    } else {
        assert(encoded_columns(p).subrange(0, encoded_columns(p).len() as int)
            =~= encoded_columns(p));
    }
}

proof fn lemma_split(p: Seq<Point>, k: nat)
    requires
        k <= 7,
        forall|j: int| 0 <= j < 7 ==> (#[trigger] column(j, p)).len() <= u32::MAX,
        encoded_columns(p).len() <= usize::MAX,
    ensures
        split_from(encoded_columns(p), framed_columns(p, k).len() as int, k) == Ok::<
            Seq<Seq<u8>>,
            &'static str,
        >(columns_of(p).subrange(k as int, 7)),
    decreases 7 - k,
{
    let all = encoded_columns(p);
    if k < 7 {
        lemma_split(p, k + 1);
        lemma_framed_prefix(p, k + 1);
        let col = column(k as int, p);
        let start = framed_columns(p, k).len() as int;
        let longer = framed_columns(p, k + 1);
        lemma_pow256_values();
        lemma_le_round_trip(col.len(), 4);
        assert(longer.len() == start + 4 + col.len());
        assert(all.subrange(start, start + 4) =~= le(col.len(), 4)) by {
            assert forall|i: int| 0 <= i < 4 implies all[start + i] == le(col.len(), 4)[i] by {
                assert(all.subrange(0, longer.len() as int)[start + i] == longer[start + i]);
            }
        }
        assert(all.subrange(start + 4, start + 4 + col.len()) =~= col) by {
            assert forall|i: int| 0 <= i < col.len() implies all[start + 4 + i] == col[i] by {
                assert(all.subrange(0, longer.len() as int)[start + 4 + i] == longer[start + 4
                    + i]);
            }
        }
        assert(seq![col] + columns_of(p).subrange(k + 1int, 7) =~= columns_of(p).subrange(
            k as int,
            7,
        ));
    } else {
        assert(columns_of(p).subrange(7, 7) =~= Seq::empty());
    }
}

/// Where the times end once `n` of them have been read.
spec fn time_position(p: Seq<Point>, n: int) -> usize {
    (8 + varints(time_steps(p).take(n - 1)).len()) as usize
}

proof fn lemma_times_read_back(p: Seq<Point>, n: nat)
    requires
        1 <= n <= p.len(),
        encodable(p),
        column(0, p).len() <= u32::MAX,
    ensures
        read_times(columns_of(p), n).0 == Seq::new(n, |i: int| p[i].valid_time),
        n >= 2 ==> read_times(columns_of(p), n).1 == p[n - 1].valid_time - p[n - 2].valid_time,
        n == 1 ==> read_times(columns_of(p), n).1 == 0,
        read_times(columns_of(p), n).2 == (Reader {
            at: Seq::new(7, |k: int| 0usize).update(0, time_position(p, n as int)),
            fault: None,
        }),
    decreases n,
{
    let cols = columns_of(p);
    let head = le(bits_of_i64(p[0].valid_time), 8);
    let xs = time_steps(p);
    lemma_i64_bits(p[0].valid_time);
    lemma_le_round_trip(bits_of_i64(p[0].valid_time), 8);
    assert(cols[0] == head + varints(xs));
    if n == 1 {
        assert(cols[0].subrange(0, 8) =~= head);
        assert(xs.take(0) =~= Seq::empty());
        assert(seq![p[0].valid_time] =~= Seq::new(1, |i: int| p[i].valid_time));
    } else {
        lemma_times_read_back(p, (n - 1) as nat);
        let j = n - 2;
        let now = p[n - 1];
        let before = p[n - 2];
        assert(step_fits(p, n - 1));
        assert(xs[j] == zigzag(time_step(p, n - 1)));
        lemma_zigzag(time_step(p, n - 1) as i64);
        lemma_varints_at(head, xs, cols[0], j, 10);
        lemma_varints_prefix(xs, j);
        let at = Seq::new(7, |k: int| 0usize);
        assert(at.update(0, time_position(p, n - 1)).update(0, time_position(p, n as int))
            =~= at.update(0, time_position(p, n as int)));
        assert(Seq::new((n - 1) as nat, |i: int| p[i].valid_time).push(now.valid_time)
            =~= Seq::new(n, |i: int| p[i].valid_time));
    }
}

/// Where column `k` stands once `n` points have been read.
#[verifier::opaque]
spec fn position(p: Seq<Point>, k: int, n: int) -> usize {
    if k == 0 {
        column(0, p).len() as usize
    } else if k == 1 {
        varints(end_gaps(p).take(n)).len() as usize
    } else if k == 2 {
        varints(knowledge_gaps(p).take(n)).len() as usize
    } else if k == 3 {
        varints(change_gaps(p).take(n)).len() as usize
    } else if k == 4 {
        varints(run_ids(p).take(n)).len() as usize
    } else if k == 5 {
        if n == 0 {
            0
        } else {
            (8 + varints(value_steps(p).take(n - 1)).len()) as usize
        }
    } else {
        varints(marks(p).take(2 * n)).len() as usize
    }
}

/// Where each column stands once `n` points have been read.
spec fn point_positions(p: Seq<Point>, n: int) -> Seq<usize> {
    Seq::new(7, |k: int| position(p, k, n))
}

/// A position in the columns, moved in column `k` behind `n` points.
spec fn moved_to(p: Seq<Point>, r: Reader, k: int, n: int) -> Reader {
    Reader { at: r.at.update(k, position(p, k, n)), fault: None }
}

/// Whether a position stands in column `k` behind `n` points.
spec fn stands_at(p: Seq<Point>, r: Reader, k: int, n: int) -> bool {
    &&& 0 <= n < p.len()
    &&& encodable(p)
    &&& column(k, p).len() <= u32::MAX
    &&& r.fault is None
    &&& r.at.len() == 7
    &&& r.at[k] == position(p, k, n)
}

/// A position in the columns, moved in column `k` behind the first `j` numbers.
spec fn after(r: Reader, k: int, xs: Seq<nat>, j: int) -> Reader {
    Reader { at: r.at.update(k, varints(xs.take(j)).len() as usize), fault: None }
}

/// Whether a position stands in column `k` behind the first `j` numbers.
spec fn stands(p: Seq<Point>, r: Reader, k: int, xs: Seq<nat>, j: int) -> bool {
    &&& 0 <= k < 7
    &&& column(k, p) == varints(xs)
    &&& column(k, p).len() <= u32::MAX
    &&& 0 <= j < xs.len()
    &&& r.fault is None
    &&& r.at.len() == 7
    &&& r.at[k] == varints(xs.take(j)).len()
}

/// A number of a plain column is read back.
proof fn lemma_number_read_back(
    p: Seq<Point>,
    xs: Seq<nat>,
    k: int,
    j: int,
    max: nat,
    r: Reader,
)
    requires
        stands(p, r, k, xs, j),
        max == 10 || max == 19,
        xs[j] <= u128::MAX,
        max == 10 ==> xs[j] <= u64::MAX,
    ensures
        read_number(columns_of(p), r, k, max) == (xs[j], after(r, k, xs, j + 1)),
        varints(xs.take(j + 1)).len() <= u32::MAX,
{
    let empty = Seq::<u8>::empty();
    assert(columns_of(p)[k] =~= empty + varints(xs));
    lemma_varints_at(empty, xs, columns_of(p)[k], j, max);
}

/// A signed number of a plain column is read back.
proof fn lemma_signed_read_back(p: Seq<Point>, xs: Seq<nat>, k: int, j: int, d: int, r: Reader)
    requires
        stands(p, r, k, xs, j),
        fits(d),
        xs[j] == zigzag(d),
    ensures
        read_i64(columns_of(p), r, k) == (d as i64, after(r, k, xs, j + 1)),
        varints(xs.take(j + 1)).len() <= u32::MAX,
{
    lemma_zigzag(d as i64);
    lemma_number_read_back(p, xs, k, j, 10, r);
}

/// The distances of a point are read back.
proof fn lemma_gaps_read_back(p: Seq<Point>, r: Reader, k: int, n: int)
    requires
        1 <= k <= 3,
        stands_at(p, r, k, n),
    ensures
        ({
            let x = p[n];
            let d = if k == 1 {
                x.valid_time_end - x.valid_time
            } else if k == 2 {
                x.knowledge_time - x.valid_time
            } else {
                x.change_time - x.knowledge_time
            };
            read_i64(columns_of(p), r, k) == (d as i64, moved_to(p, r, k, n + 1))
        }),
{
    reveal(position);
    let x = p[n];
    if k == 1 {
        lemma_varints_prefix(end_gaps(p), n);
        lemma_signed_read_back(p, end_gaps(p), 1, n, x.valid_time_end - x.valid_time, r);
    } else if k == 2 {
        lemma_varints_prefix(knowledge_gaps(p), n);
        lemma_signed_read_back(p, knowledge_gaps(p), 2, n, x.knowledge_time - x.valid_time, r);
    } else {
        lemma_varints_prefix(change_gaps(p), n);
        lemma_signed_read_back(p, change_gaps(p), 3, n, x.change_time - x.knowledge_time, r);
    }
}

/// The run of a point is read back.
proof fn lemma_run_read_back(p: Seq<Point>, r: Reader, n: int)
    requires
        stands_at(p, r, 4, n),
    ensures
        read_u128(columns_of(p), r, 4) == (p[n].run_id, moved_to(p, r, 4, n + 1)),
{
    reveal(position);
    lemma_varints_prefix(run_ids(p), n);
    lemma_number_read_back(p, run_ids(p), 4, n, 19, r);
}

/// The value of a point is read back behind the points before it.
proof fn lemma_value_read_back(p: Seq<Point>, r: Reader, n: int)
    requires
        stands_at(p, r, 5, n),
    ensures
        read_value(columns_of(p), r, p.take(n)) == (p[n].value, moved_to(p, r, 5, n + 1)),
{
    reveal(position);
    let cols = columns_of(p);
    let head = le(p[0].value.0 as nat, 8);
    let steps = value_steps(p);
    lemma_pow256_values();
    lemma_le_round_trip(p[0].value.0 as nat, 8);
    assert(cols[5] == head + varints(steps));
    if n == 0 {
        assert(cols[5].subrange(0, 8) =~= head);
        assert(steps.take(0) =~= Seq::empty());
    } else {
        let a = p[n].value.0;
        let b = p[n - 1].value.0;
        assert(b ^ (a ^ b) == a) by (bit_vector);
        lemma_varints_at(head, steps, cols[5], n - 1, 10);
        lemma_varints_prefix(steps, n - 1);
        assert(p.take(n).last() == p[n - 1]);
    }
}

/// Quality and flags of a point are read back.
proof fn lemma_marks_read_back(p: Seq<Point>, r: Reader, n: int)
    requires
        stands_at(p, r, 6, n),
    ensures
        ({
            let (quality, r1) = read_u64(columns_of(p), r, 6);
            let (flags, r2) = read_u64(columns_of(p), r1, 6);
            quality == p[n].quality && flags == p[n].flags && r2 == moved_to(p, r, 6, n + 1)
        }),
{
    reveal(position);
    lemma_varints_prefix(marks(p), 2 * n);
    assert((2 * n) / 2 == n && (2 * n + 1) / 2 == n);
    lemma_number_read_back(p, marks(p), 6, 2 * n, 10, r);
    let r6 = after(r, 6, marks(p), 2 * n + 1);
    lemma_number_read_back(p, marks(p), 6, 2 * n + 1, 10, r6);
    assert(2 * n + 2 == 2 * (n + 1));
    assert(after(r6, 6, marks(p), 2 * n + 2).at =~= moved_to(p, r, 6, n + 1).at);
}

/// The fields of a point, read one behind the other, make the point.
proof fn lemma_point_from_fields(
    cols: Seq<Seq<u8>>,
    before: Seq<Point>,
    x: Point,
    r0: Reader,
    r1: Reader,
    r2: Reader,
    r3: Reader,
    r4: Reader,
    r5: Reader,
    r6: Reader,
    r7: Reader,
)
    requires
        fits(x.valid_time_end - x.valid_time),
        fits(x.knowledge_time - x.valid_time),
        fits(x.change_time - x.knowledge_time),
        read_i64(cols, r0, 1) == ((x.valid_time_end - x.valid_time) as i64, r1),
        read_i64(cols, r1, 2) == ((x.knowledge_time - x.valid_time) as i64, r2),
        read_i64(cols, r2, 3) == ((x.change_time - x.knowledge_time) as i64, r3),
        read_u128(cols, r3, 4) == (x.run_id, r4),
        read_value(cols, r4, before) == (x.value, r5),
        read_u64(cols, r5, 6) == (x.quality as u64, r6),
        read_u64(cols, r6, 6) == (x.flags as u64, r7),
    ensures
        read_point(cols, r0, before, x.series_id, x.valid_time) == (x, r7),
{
}

/// A point is read back behind the points before it.
proof fn lemma_point_read_back(p: Seq<Point>, n: nat, series_id: u64)
    requires
        n < p.len(),
        encodable(p),
        p[n as int].series_id == series_id,
        forall|j: int| 0 <= j < 7 ==> (#[trigger] column(j, p)).len() <= u32::MAX,
    ensures
        read_point(
            columns_of(p),
            Reader { at: point_positions(p, n as int), fault: None },
            p.take(n as int),
            series_id,
            p[n as int].valid_time,
        ) == (p[n as int], Reader { at: point_positions(p, n + 1int), fault: None }),
{
    let cols = columns_of(p);
    let i = n as int;
    let x = p[i];
    assert(column(1, p).len() <= u32::MAX && column(2, p).len() <= u32::MAX && column(3, p).len()
        <= u32::MAX && column(4, p).len() <= u32::MAX && column(5, p).len() <= u32::MAX && column(
        6,
        p,
    ).len() <= u32::MAX);
    let r0 = Reader { at: point_positions(p, i), fault: None };
    let r1 = moved_to(p, r0, 1, i + 1);
    let r2 = moved_to(p, r1, 2, i + 1);
    let r3 = moved_to(p, r2, 3, i + 1);
    let r4 = moved_to(p, r3, 4, i + 1);
    let r5 = moved_to(p, r4, 5, i + 1);
    let r6 = read_u64(cols, r5, 6).1;
    let r7 = moved_to(p, r5, 6, i + 1);
    lemma_gaps_read_back(p, r0, 1, i);
    lemma_gaps_read_back(p, r1, 2, i);
    lemma_gaps_read_back(p, r2, 3, i);
    lemma_run_read_back(p, r3, i);
    lemma_value_read_back(p, r4, i);
    lemma_marks_read_back(p, r5, i);
    assert(position(p, 0, i) == position(p, 0, i + 1)) by {
        reveal(position);
    }
    assert(r7.at =~= point_positions(p, i + 1));
    lemma_point_from_fields(cols, p.take(i), x, r0, r1, r2, r3, r4, r5, r6, r7);
}

proof fn lemma_points_read_back(p: Seq<Point>, n: nat, series_id: u64, times: Seq<i64>, r: Reader)
    requires
        n <= p.len(),
        encodable(p),
        forall|i: int| 0 <= i < p.len() ==> (#[trigger] p[i]).series_id == series_id,
        forall|j: int| 0 <= j < 7 ==> (#[trigger] column(j, p)).len() <= u32::MAX,
        times == Seq::new(p.len(), |i: int| p[i].valid_time),
        r == (Reader { at: point_positions(p, 0), fault: None }),
    ensures
        read_points(columns_of(p), r, series_id, times, n) == (
            p.take(n as int),
            (Reader { at: point_positions(p, n as int), fault: None }),
        ),
    decreases n,
{
    if n > 0 {
        lemma_points_read_back(p, (n - 1) as nat, series_id, times, r);
        lemma_point_read_back(p, (n - 1) as nat, series_id);
        assert(p.take(n - 1).push(p[n - 1]) =~= p.take(n as int));
    } else {
        assert(p.take(0) =~= Seq::empty());
    }
}

/// Decoding the bytes of a block of points of one series gives the points.
pub proof fn columns_round_trip(p: Seq<Point>, series_id: u64)
    requires
        p.len() > 0,
        encode_fault(p) is None,
        encoded_columns(p).len() <= usize::MAX,
        forall|i: int| 0 <= i < p.len() ==> (#[trigger] p[i]).series_id == series_id,
    ensures
        decoded_columns(encoded_columns(p), series_id, p.len()) == Ok::<Seq<Point>, &'static str>(
            p,
        ),
{
    let cols = columns_of(p);
    let n = p.len();
    encoded_size_bounds(p);
    lemma_split(p, 0);
    assert(framed_columns(p, 0).len() == 0);
    assert(cols.subrange(0, 7) =~= cols);
    lemma_times_read_back(p, n);
    let times = Seq::new(n, |i: int| p[i].valid_time);
    assert(time_steps(p).take(n - 1) =~= time_steps(p));
    lemma_le_len(bits_of_i64(p[0].valid_time), 8);
    assert(column(0, p).len() <= u32::MAX);
    let r = read_times(cols, n).2;
    assert(r.at =~= point_positions(p, 0)) by {
        reveal(position);
        assert(end_gaps(p).take(0) =~= Seq::empty());
        assert(knowledge_gaps(p).take(0) =~= Seq::empty());
        assert(change_gaps(p).take(0) =~= Seq::empty());
        assert(run_ids(p).take(0) =~= Seq::empty());
        assert(marks(p).take(0) =~= Seq::empty());
    }
    lemma_points_read_back(p, n, series_id, times, r);
    assert(p.take(n as int) =~= p);
    let last = Reader { at: point_positions(p, n as int), fault: None };
    assert forall|k: int| 1 <= k < 7 implies #[trigger] consumed(cols, last, k) by {
        assert(column(k, p).len() <= u32::MAX);
        lemma_all_consumed(p, k);
    }
    assert(consumed(cols, r, 0)) by {
        reveal(position);
    }
}

/// An encoded block is refused with any other number of points: the times do not come out.
pub proof fn other_counts_are_refused(p: Seq<Point>, series_id: u64, count: nat)
    requires
        p.len() > 0,
        encode_fault(p) is None,
        encoded_columns(p).len() <= usize::MAX,
        count != p.len(),
    ensures
        decoded_columns(encoded_columns(p), series_id, count) is Err,
{
    let cols = columns_of(p);
    let n = p.len();
    let xs = time_steps(p);
    lemma_split(p, 0);
    assert(framed_columns(p, 0).len() == 0);
    assert(cols.subrange(0, 7) =~= cols);
    lemma_le_len(bits_of_i64(p[0].valid_time), 8);
    assert(column(0, p).len() <= u32::MAX);
    assert(cols[0] == column(0, p));
    let (times, delta, r) = read_times(cols, count);
    if 0 < count < n {
        lemma_times_read_back(p, count);
        lemma_varints_prefix(xs, count as int);
        lemma_varints_push(xs, count - 1);
        lemma_varint_len(xs[count - 1]);
        assert(!consumed(cols, r, 0));
    } else if count > n {
        lemma_times_read_back(p, n);
        assert(xs.take(n - 1) =~= xs);
        let end = read_times(cols, n).2;
        assert(end.at[0] == cols[0].len());
        assert(scan_varint(cols[0], end.at[0] as int, 0, 10) is Err);
        assert(read_times(cols, n + 1).2.fault is Some);
        lemma_times_fault(cols, n + 1, count);
    }
    let r = demand(r, consumed(cols, r, 0), "trailing timestamp column bytes");
    if count > 0 {
        assert(r.fault is Some);
        assert(read_points(cols, r, series_id, times, 0).1.fault is Some);
        lemma_points_fault(cols, r, series_id, times, 0, count);
    }
}

/// Behind the last point every column has been read to its end.
proof fn lemma_all_consumed(p: Seq<Point>, k: int)
    requires
        0 <= k < 7,
        p.len() > 0,
        column(k, p).len() <= u32::MAX,
    ensures
        position(p, k, p.len() as int) == column(k, p).len(),
{
    reveal(position);
    let n = p.len() as int;
    assert(end_gaps(p).take(n) =~= end_gaps(p));
    assert(knowledge_gaps(p).take(n) =~= knowledge_gaps(p));
    assert(change_gaps(p).take(n) =~= change_gaps(p));
    assert(run_ids(p).take(n) =~= run_ids(p));
    assert(value_steps(p).take(n - 1) =~= value_steps(p));
    lemma_le_len(p[0].value.0 as nat, 8);
    assert(marks(p).take(2 * n) =~= marks(p));
}

} // verus!
