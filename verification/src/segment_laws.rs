//! What segments and rollups store, which of their files are read, and what a query of
//! a time range gives.
#[allow(unused_imports)]
use crate::bytes::{lemma_from_le_round_trip, lemma_pow256_values};
#[allow(unused_imports)]
use crate::calendar_rollup::overlapping_places;
#[allow(unused_imports)]
use crate::checksum::crc32_of;
#[allow(unused_imports)]
use crate::columns::{encodable, step_fits};
#[allow(unused_imports)]
use crate::counting::sum_of;
#[allow(unused_imports)]
use crate::fields::field;
#[allow(unused_imports)]
use crate::model::Point;
#[allow(unused_imports)]
use crate::rollup::{
    closed_bucket, held_total, merged_bucket, BucketNumbers, BucketParts, GaugeBucket, Hold,
};
#[allow(unused_imports)]
use crate::rollup_segment::{bucket_fault, buckets_fault, overlapping, rollup_opened, rollup_stats};
#[allow(unused_imports)]
use crate::segment::{
    block_end, block_header_fault, block_ok, blocks_from, concat, counted, create_fault, entries_at,
    entries_fault, entry_fault, in_range, lemma_block_end, lemma_blocks, logical_bytes, matching,
    opened, selected, signed_field, stats_of, IndexEntry,
};
use vstd::prelude::*;

verus! {

// Queries.

/// The points that a query of a segment gives are those of the series whose valid time is
/// not before the start and before the end, in their order, and no others.
pub proof fn queries_give_points_in_range(p: Seq<Point>, series_id: u64, start: i64, end: i64)
    ensures
        matching(p, series_id, start, end) == p.filter(
            |x: Point| x.series_id == series_id && start <= x.valid_time && x.valid_time < end,
        ),
        in_range(p, start, end) == p.filter(
            |x: Point| start <= x.valid_time && x.valid_time < end,
        ),
    decreases p.len(),
{
    reveal(Seq::filter);
    if p.len() > 0 {
        queries_give_points_in_range(p.drop_last(), series_id, start, end);
    }
}

/// A query never passes over a block that could hold a point it asks for.
pub proof fn blocks_in_range_are_read(entry: IndexEntry, p: Point, start: i64, end: i64)
    requires
        entry.series_id == p.series_id,
        entry.min_time <= p.valid_time <= entry.max_time,
        start <= p.valid_time,
        p.valid_time < end,
    ensures
        selected(entry, p.series_id, start, end),
{
}

/// The buckets that a query of a rollup gives are those that share time with the range.
pub proof fn queries_give_overlapping_buckets(
    buckets: Seq<GaugeBucket>,
    list: Seq<BucketParts>,
    start: i64,
    end: i64,
)
    requires
        list.len() <= usize::MAX,
    ensures
        overlapping(buckets, start, end) == buckets.filter(
            |b: GaugeBucket| start < b.end && b.start < end,
        ),
        forall|i: int|
            0 <= i < list.len() ==> (overlapping_places(list, start, end).contains(i as usize)
                <==> start < (#[trigger] list[i]).end && list[i].start < end),
        forall|k: int|
            0 <= k < overlapping_places(list, start, end).len() ==> (#[trigger] overlapping_places(
                list,
                start,
                end,
            )[k]) < list.len(),
        forall|j: int, k: int|
            #![trigger overlapping_places(list, start, end)[j], overlapping_places(list, start, end)[k]]
            0 <= j < k < overlapping_places(list, start, end).len() ==> overlapping_places(
                list,
                start,
                end,
            )[j] < overlapping_places(list, start, end)[k],
{
    lemma_overlapping_filter(buckets, start, end);
    lemma_places(list, start, end);
}

proof fn lemma_overlapping_filter(buckets: Seq<GaugeBucket>, start: i64, end: i64)
    ensures
        overlapping(buckets, start, end) == buckets.filter(
            |b: GaugeBucket| start < b.end && b.start < end,
        ),
    decreases buckets.len(),
{
    reveal(Seq::filter);
    if buckets.len() > 0 {
        lemma_overlapping_filter(buckets.drop_last(), start, end);
    }
}

proof fn lemma_places(list: Seq<BucketParts>, start: i64, end: i64)
    requires
        list.len() <= usize::MAX,
    ensures
        forall|i: int|
            0 <= i < list.len() ==> (overlapping_places(list, start, end).contains(i as usize)
                <==> start < (#[trigger] list[i]).end && list[i].start < end),
        forall|k: int|
            0 <= k < overlapping_places(list, start, end).len() ==> (#[trigger] overlapping_places(
                list,
                start,
                end,
            )[k]) < list.len(),
        forall|j: int, k: int|
            #![trigger overlapping_places(list, start, end)[j], overlapping_places(list, start, end)[k]]
            0 <= j < k < overlapping_places(list, start, end).len() ==> overlapping_places(
                list,
                start,
                end,
            )[j] < overlapping_places(list, start, end)[k],
    decreases list.len(),
{
    if list.len() > 0 {
        let front = list.drop_last();
        lemma_places(front, start, end);
        let before = overlapping_places(front, start, end);
        let after = overlapping_places(list, start, end);
        let n = list.len() - 1;
        assert forall|i: int| 0 <= i < list.len() implies (after.contains(i as usize) <==> start
            < (#[trigger] list[i]).end && list[i].start < end) by {
            if i < n {
                assert(front[i] == list[i]);
                if before.contains(i as usize) {
                    let k = choose|k: int| 0 <= k < before.len() && before[k] == i as usize;
                    assert(after[k] == i as usize);
                }
                if after.contains(i as usize) {
                    let k = choose|k: int| 0 <= k < after.len() && after[k] == i as usize;
                    if k < before.len() {
                        assert(before[k] == i as usize);
                    }
                }
            } else {
                if after.len() > before.len() {
                    assert(after[before.len() as int] == n as usize);
                } else {
                    if after.contains(n as usize) {
                        let k = choose|k: int| 0 <= k < after.len() && after[k] == n as usize;
                        assert(before[k] < front.len());
                    }
                }
            }
        }
    }
}

// Blocks.

/// Points are stored in blocks that together hold all of them in their order. No block is
/// empty or holds more than it may, and each holds points of one series.
pub proof fn blocks_hold_all_points(o: Seq<Point>, most: nat, i: int)
    requires
        0 < most,
        0 <= i < blocks_from(o, 0, most).len(),
    ensures
        concat(blocks_from(o, 0, most)) == o,
        0 < blocks_from(o, 0, most)[i].len() <= most,
        forall|j: int|
            0 <= j < blocks_from(o, 0, most)[i].len()
                ==> (#[trigger] blocks_from(o, 0, most)[i][j]).series_id
                == blocks_from(o, 0, most)[i][0].series_id,
{
    lemma_blocks(o, 0, most);
    assert(o.subrange(0, o.len() as int) =~= o);
    assert(block_ok(blocks_from(o, 0, most)[i], most));
}

proof fn lemma_block_stops(o: Seq<Point>, s: int, e: int, most: nat)
    requires
        0 <= s < e <= o.len(),
    ensures
        ({
            let end = block_end(o, s, e, most);
            end < o.len() ==> end - s >= most || o[end].series_id != o[s].series_id
        }),
    decreases o.len() - e,
{
    if e < o.len() && e - s < most && o[e].series_id == o[s].series_id {
        lemma_block_stops(o, s, e + 1, most);
    }
}

proof fn lemma_full(o: Seq<Point>, s: int, most: nat, i: int)
    requires
        0 < most,
        0 <= s <= o.len(),
        0 <= i < blocks_from(o, s, most).len() - 1,
    ensures
        ({
            let blocks = blocks_from(o, s, most);
            blocks[i].len() == most || blocks[i][0].series_id != blocks[i + 1][0].series_id
        }),
    decreases i,
{
    lemma_block_end(o, s, s + 1, most);
    let e = block_end(o, s, s + 1, most);
    let rest = blocks_from(o, e, most);
    let blocks = blocks_from(o, s, most);
    assert(blocks[i + 1] == rest[i]);
    if i == 0 {
        lemma_block_stops(o, s, s + 1, most);
        lemma_block_end(o, e, e + 1, most);
        assert(rest[0][0] == o[e]);
        assert(blocks[0][0] == o[s]);
    } else {
        lemma_full(o, e, most, i - 1);
        assert(blocks[i] == rest[i - 1]);
    }
}

/// A block is closed only where it is full or the next point is of another series.
pub proof fn blocks_are_filled(o: Seq<Point>, most: nat, i: int)
    requires
        0 < most,
        0 <= i < blocks_from(o, 0, most).len() - 1,
    ensures
        blocks_from(o, 0, most)[i].len() == most || blocks_from(o, 0, most)[i][0].series_id
            != blocks_from(o, 0, most)[i + 1][0].series_id,
{
    lemma_full(o, 0, most, i);
}

/// Points whose times all lie in half the range of times, and so no further apart than can
/// be stored, are always made a segment, where their blocks can be counted.
pub proof fn ordinary_points_are_stored(o: Seq<Point>, most: nat)
    requires
        0 < most,
        forall|i: int|
            0 <= i < o.len() ==> {
                let p = #[trigger] o[i];
                &&& 0 <= p.valid_time <= 0x3fff_ffff_ffff_ffff
                &&& 0 <= p.valid_time_end
                &&& 0 <= p.knowledge_time
                &&& 0 <= p.change_time
            },
        blocks_from(o, 0, most).len() <= 100_000_000,
    ensures
        create_fault(o, most) is None,
{
    let blocks = blocks_from(o, 0, most);
    lemma_blocks(o, 0, most);
    assert(o.subrange(0, o.len() as int) =~= o);
    assert forall|i: int| 0 <= i < blocks.len() implies encodable(#[trigger] blocks[i]) by {
        let block = blocks[i];
        assert forall|j: int| 0 <= j < block.len() implies ({
            let p = #[trigger] block[j];
            &&& 0 <= p.valid_time <= 0x3fff_ffff_ffff_ffff
            &&& 0 <= p.valid_time_end
            &&& 0 <= p.knowledge_time
            &&& 0 <= p.change_time
        }) by {
            lemma_in_concat(blocks, i, j);
            let k = choose|k: int| 0 <= k < o.len() && o[k] == block[j];
            assert(o[k] == block[j]);
        }
        assert forall|j: int| 1 <= j < block.len() implies #[trigger] step_fits(
            block,
            j,
        ) by {
            let a = block[j];
            let b = block[j - 1];
            if j > 1 {
                let c = block[j - 2];
            }
        }
    }
}

proof fn lemma_in_concat(blocks: Seq<Seq<Point>>, i: int, j: int)
    requires
        0 <= i < blocks.len(),
        0 <= j < blocks[i].len(),
    ensures
        concat(blocks).contains(blocks[i][j]),
    decreases blocks.len(),
{
    let front = blocks.drop_last();
    let all = concat(front) + blocks.last();
    if i == blocks.len() - 1 {
        assert(all[concat(front).len() + j] == blocks[i][j]);
    } else {
        lemma_in_concat(front, i, j);
        let k = choose|k: int| 0 <= k < concat(front).len() && concat(front)[k] == blocks[i][j];
        assert(all[k] == blocks[i][j]);
    }
}

// Files.

/// Whether entry `i` of an index is right: it stands where the block before it ends, holds
/// a number of points that there can be, spans time forwards, ends before the index, is not
/// too small for its points, and comes behind the entries of smaller series and earlier
/// times.
pub open spec fn right_entry(index: Seq<IndexEntry>, i: int, index_offset: u64) -> bool {
    let entry = index[i];
    &&& 1 <= entry.points <= 262_144
    &&& entry.min_time <= entry.max_time
    &&& i == 0 ==> entry.offset == 40
    &&& i > 0 ==> entry.offset == index[i - 1].offset + index[i - 1].length
    &&& entry.offset + entry.length <= index_offset
    &&& 42 + 8 * entry.points <= 255 * (if entry.length < 56 {
        0
    } else {
        entry.length - 56
    })
    &&& i > 0 ==> index[i - 1].series_id <= entry.series_id
    &&& i > 0 && index[i - 1].series_id == entry.series_id ==> index[i - 1].min_time
        <= entry.min_time
}

proof fn lemma_entries(index: Seq<IndexEntry>, n: nat, index_offset: u64)
    requires
        n <= index.len(),
    ensures
        entries_fault(index, n, index_offset) is None <==> forall|i: int|
            0 <= i < n ==> #[trigger] right_entry(index, i, index_offset),
    decreases n,
{
    if n > 0 {
        lemma_entries(index, (n - 1) as nat, index_offset);
        let last = index[n - 1];
        assert(entry_fault(index, n - 1, index_offset) is None <==> right_entry(
            index,
            n - 1,
            index_offset,
        ));
        if forall|i: int| 0 <= i < n ==> #[trigger] right_entry(index, i, index_offset) {
            assert(right_entry(index, n - 1, index_offset));
        }
    }
}

proof fn lemma_counted(index: Seq<IndexEntry>, n: nat)
    requires
        n <= index.len(),
    ensures
        counted(index, n) == sum_of(Seq::new(n, |i: int| index[i].points as int)),
    decreases n,
{
    if n > 0 {
        lemma_counted(index, (n - 1) as nat);
        assert(Seq::new(n, |i: int| index[i].points as int).drop_last() =~= Seq::new(
            (n - 1) as nat,
            |i: int| index[i].points as int,
        ));
    }
}

/// The entries that a segment file lists, and how many points they count together.
pub open spec fn listed_points(index: Seq<IndexEntry>) -> int {
    sum_of(Seq::new(index.len(), |i: int| index[i].points as int))
}

/// A segment file is opened exactly where it is whole: both magics and versions, checksums
/// that hold, an index that fills the file to its end, and entries that are right, follow
/// each other without a gap up to the index, and count as many points as the header says.
#[verifier::spinoff_prover]
pub proof fn whole_segments_are_opened(b: Seq<u8>)
    requires
        b.len() <= u64::MAX,
    ensures
        opened(b) is Ok <==> {
            let count = field(b, 12, 4);
            let at = field(b, 24, 8) as int;
            let index = entries_at(b, at + 16, count);
            &&& b.len() >= 56
            &&& field(b, 0, 8) == 0x3130_3030_4745_5357
            &&& field(b, 8, 2) == 1
            &&& field(b, 36, 4) == crc32_of(b.subrange(0, 36))
            &&& at >= 40
            &&& at + field(b, 32, 4) == b.len()
            &&& field(b, 32, 4) == 16 + 40 * count
            &&& field(b, at, 4) == 0x5844_4957
            &&& field(b, at + 4, 2) == 1
            &&& field(b, at + 6, 2) == 40
            &&& field(b, at + 8, 4) == count
            &&& field(b, at + 12, 4) == crc32_of(b.subrange(at + 16, b.len() as int))
            &&& forall|i: int|
                0 <= i < count ==> #[trigger] right_entry(index, i, at as u64)
            &&& listed_points(index) == field(b, 16, 8)
            &&& count == 0 ==> at == 40
            &&& count > 0 ==> index.last().offset + index.last().length == at
        },
        opened(b) matches Ok(index) ==> index == entries_at(
            b,
            field(b, 24, 8) as int + 16,
            field(b, 12, 4),
        ),
{
    let count = field(b, 12, 4);
    let at = field(b, 24, 8) as int;
    let index = entries_at(b, at + 16, count);
    lemma_entries(index, count, at as u64);
    lemma_counted(index, count);
    if b.len() >= 56 {
        lemma_pow256_values();
        lemma_from_le_round_trip(b.subrange(16, 24));
        lemma_from_le_round_trip(b.subrange(24, 32));
    }
}

/// The header of a block is taken exactly where it is whole and says what the index says of
/// the block.
pub proof fn whole_blocks_are_read(header: Seq<u8>, entry: IndexEntry)
    ensures
        block_header_fault(header, entry) is None <==> {
            &&& field(header, 0, 4) == 0x4b4c_4257
            &&& field(header, 4, 2) == 1
            &&& header[7] == 1
            &&& field(header, 8, 8) == entry.series_id
            &&& field(header, 16, 4) == entry.points
            &&& signed_field(header, 32) == entry.min_time
            &&& signed_field(header, 40) == entry.max_time
            &&& field(header, 24, 4) == entry.length - 56
            &&& 42 + 8 * entry.points <= field(header, 20, 4) <= 28 + 89 * entry.points
            &&& field(header, 48, 4) == crc32_of(header.subrange(0, 48))
        },
{
}

/// What a segment tells of itself: a point counts for 72 bytes.
pub proof fn segments_count_their_points(b: Seq<u8>)
    requires
        b.len() <= u64::MAX,
        (field(b, 16, 8) as u64) * 72 <= u64::MAX,
    ensures
        stats_of(b).points == field(b, 16, 8) as u64,
        stats_of(b).blocks == field(b, 12, 4) as u32,
        stats_of(b).stored_bytes == b.len(),
        stats_of(b).logical_point_bytes == 72 * (field(b, 16, 8) as u64),
{
}

// Rollups.

/// Whether bucket `i` may stand behind those before it: it spans some time, begins where
/// the one before has ended, covers no more than its span, has a minimum exactly where it
/// has a maximum, and a first and a last sample exactly where it counts one.
pub open spec fn right_bucket(buckets: Seq<GaugeBucket>, i: int) -> bool {
    let b = buckets[i];
    &&& b.start < b.end
    &&& i > 0 ==> buckets[i - 1].end <= b.start
    &&& 0 <= b.covered_micros <= b.end - b.start
    &&& b.min is Some <==> b.max is Some
    &&& b.first is Some <==> b.count > 0
    &&& b.last is Some <==> b.count > 0
}

/// Buckets are stored exactly where each may stand behind those before it.
pub proof fn ascending_buckets_are_stored(buckets: Seq<GaugeBucket>, n: nat, offset: u64)
    requires
        n <= buckets.len(),
    ensures
        buckets_fault(buckets, n, offset) is None <==> forall|i: int|
            0 <= i < n ==> #[trigger] right_bucket(buckets, i),
    decreases n,
{
    if n > 0 {
        ascending_buckets_are_stored(buckets, (n - 1) as nat, offset);
        let last = buckets[n - 1];
        assert(bucket_fault(buckets, n - 1) is None <==> right_bucket(buckets, n - 1));
        if forall|i: int| 0 <= i < n ==> #[trigger] right_bucket(buckets, i) {
            assert(right_bucket(buckets, n - 1));
        }
    }
}

/// A rollup file is opened only where it is whole and its buckets are right: the magic and
/// the version, checksums that hold, no more buckets than there may be, lengths that agree,
/// and bounds that are those of the first and the last bucket.
#[verifier::spinoff_prover]
pub proof fn whole_rollups_are_opened(b: Seq<u8>)
    ensures
        rollup_opened(b) matches Ok(buckets) ==> {
            &&& b.len() >= 48
            &&& field(b, 0, 8) == 0x3130_3030_4c4f_5257
            &&& field(b, 8, 2) == 1
            &&& b[10] == 0 || b[10] == 1
            &&& field(b, 12, 4) == buckets.len()
            &&& buckets.len() <= 262_144
            &&& field(b, 16, 4) == 104 * buckets.len()
            &&& field(b, 20, 4) == b.len() - 48
            &&& field(b, 24, 4) == crc32_of(b.subrange(48, b.len() as int))
            &&& field(b, 44, 4) == crc32_of(b.subrange(0, 44))
            &&& buckets.len() > 0 ==> signed_field(b, 28) == buckets[0].start && signed_field(b, 36)
                == buckets.last().end
            &&& forall|i: int|
                0 <= i < buckets.len() ==> #[trigger] right_bucket(buckets, i)
        },
{
    if let Ok(buckets) = rollup_opened(b) {
        ascending_buckets_are_stored(buckets, buckets.len(), 48);
    }
}

/// What a rollup tells of itself.
pub proof fn rollups_count_their_buckets(buckets: Seq<GaugeBucket>, stored: nat)
    requires
        buckets.len() <= 262_144,
        stored <= u64::MAX,
    ensures
        rollup_stats(buckets, stored).buckets == buckets.len(),
        rollup_stats(buckets, stored).stored_bytes == stored,
        rollup_stats(buckets, stored).logical_bytes == 104 * buckets.len(),
        buckets.len() > 0 ==> rollup_stats(buckets, stored).min_start == Some(buckets[0].start),
        buckets.len() > 0 ==> rollup_stats(buckets, stored).max_end == Some(buckets.last().end),
        buckets.len() == 0 ==> rollup_stats(buckets, stored).min_start is None && rollup_stats(
            buckets,
            stored,
        ).max_end is None,
{
}

proof fn lemma_held(holds: Seq<Hold>)
    ensures
        held_total(holds) == sum_of(Seq::new(holds.len(), |i: int| holds[i].micros as int)),
    decreases holds.len(),
{
    if holds.len() > 0 {
        let front = holds.drop_last();
        lemma_held(front);
        assert(Seq::new(holds.len(), |i: int| holds[i].micros as int).drop_last() =~= Seq::new(
            front.len(),
            |i: int| front[i].micros as int,
        ));
    }
}

/// A closed bucket keeps its span, counts its samples, names the first and the last of
/// them, and covers the time for which its values were held.
pub proof fn closed_buckets_tell_their_parts(parts: BucketParts, numbers: BucketNumbers)
    requires
        parts.samples@.len() <= u64::MAX,
        i64::MIN <= held_total(parts.holds@) <= i64::MAX,
    ensures
        ({
            let bucket = closed_bucket(parts, numbers);
            let n = parts.samples@.len();
            &&& bucket.start == parts.start
            &&& bucket.end == parts.end
            &&& bucket.count == n
            &&& n > 0 ==> bucket.first == Some(parts.samples@[0]) && bucket.last == Some(
                parts.samples@[n - 1],
            )
            &&& n == 0 ==> bucket.first is None && bucket.last is None
            &&& bucket.covered_micros == sum_of(
                Seq::new(parts.holds@.len(), |i: int| parts.holds@[i].micros as int),
            )
        }),
{
    lemma_held(parts.holds@);
}

/// Two buckets merge into one that spans both, counts both and covers what both cover; its
/// first sample is the earlier one's where there is one, and its last the later one's.
pub proof fn merged_buckets_add_up(a: GaugeBucket, next: GaugeBucket, numbers: BucketNumbers)
    requires
        a.count + next.count <= u64::MAX,
        i64::MIN <= a.covered_micros + next.covered_micros <= i64::MAX,
    ensures
        ({
            let merged = merged_bucket(a, next, numbers);
            &&& merged.start == a.start
            &&& merged.end == next.end
            &&& merged.count == a.count + next.count
            &&& merged.covered_micros == a.covered_micros + next.covered_micros
            &&& a.first is Some ==> merged.first == a.first
            &&& a.first is None ==> merged.first == next.first
            &&& next.last is Some ==> merged.last == next.last
            &&& next.last is None ==> merged.last == a.last
        }),
{
}

} // verus!
