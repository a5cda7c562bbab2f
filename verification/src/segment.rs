//! Immutable, indexed segments of raw points.
//!
//! A segment is a header, blocks of points, and an index of the blocks. All
//! numbers are stored least significant byte first.
use crate::bytes::{put_bytes, read_le};
#[allow(unused_imports)]
use crate::bytes::{
    bits_of_i64, from_le, i64_of_bits, le, lemma_i64_bits, lemma_i64_from_bits, lemma_le_len,
    lemma_le_round_trip, lemma_pow256_values, pow256,
};
use crate::checksum::crc32;
#[allow(unused_imports)]
use crate::checksum::crc32_of;
use crate::columns::{
    decode_columns, encode_columns, maximum_encoded_bytes, minimum_encoded_bytes,
};
#[allow(unused_imports)]
use crate::columns::{
    columns_round_trip, decoded_columns, encodable, encode_fault, encoded_columns,
    encoded_size_bounds, maximum_bytes, minimum_bytes,
};
use crate::error::{corruption, Error};
#[allow(unused_imports)]
use crate::error::{corrupt_at, unserializable};
#[allow(unused_imports)]
use crate::fields::{
    field, fields_fit, lemma_fields, lemma_packed_len, offset_of, packed, packed_to,
};
use crate::fields::put_fields;
use crate::lz4::{compress, decompress, has_short_runs};
#[allow(unused_imports)]
use crate::lz4::{is_pack, lz4_content, short_runs, MAX_LZ4_OUTPUT_BYTES};
use crate::model::Point;
use crate::point_sort::sort_points;
#[allow(unused_imports)]
use crate::point_sort::{key_less, key_sorted, stored_order};
use vstd::prelude::*;
use vstd::string::*;

verus! {

/// "WSEG0001" as a number.
pub const SEGMENT_MAGIC: u64 = 0x3130_3030_4745_5357;

pub const SEGMENT_VERSION: u16 = 1;

pub const SEGMENT_HEADER_BYTES: usize = 40;

/// "WBLK" as a number.
pub const BLOCK_MAGIC: u32 = 0x4b4c_4257;

pub const BLOCK_VERSION: u16 = 1;

pub const BLOCK_HEADER_BYTES: usize = 56;

pub const BLOCK_ENCODING_COLUMN_V1: u8 = 1;

pub const COMPRESSION_RAW: u8 = 0;

pub const COMPRESSION_LZ4: u8 = 1;

/// "WIDX" as a number.
pub const INDEX_MAGIC: u32 = 0x5844_4957;

pub const INDEX_VERSION: u16 = 1;

pub const INDEX_HEADER_BYTES: usize = 16;

pub const INDEX_ENTRY_BYTES: usize = 40;

/// Hard ceiling for one decoded block, so that a valid, highly compressible block
/// cannot expand into gigabytes of points.
pub const MAX_BLOCK_POINTS: u32 = 262144;

/// The LZ4 block format cannot expand one compressed byte into more bytes.
pub const MAX_LZ4_RATIO: u64 = 255;

#[derive(Clone, Copy, Debug, PartialEq, Eq, Structural)]
pub struct SegmentStats {
    pub blocks: u32,
    pub points: u64,
    pub stored_bytes: u64,
    pub logical_point_bytes: u64,
}

/// Where a block stands and what it covers.
#[derive(Clone, Copy, Debug, PartialEq, Eq, Structural)]
pub struct IndexEntry {
    pub series_id: u64,
    pub min_time: i64,
    pub max_time: i64,
    pub offset: u64,
    pub length: u32,
    pub points: u32,
}

/// Why stored bytes cannot be read.
pub enum Fault {
    Corrupt { offset: u64, reason: Seq<char> },
    /// The bytes end before a part that the format has there.
    ShortRead,
}

/// Whether an error reports a fault.
pub open spec fn reports(error: Error, fault: Fault) -> bool {
    match fault {
        Fault::Corrupt { offset, reason } => corrupt_at(error, offset, reason),
        Fault::ShortRead => error matches Error::Io(said) && said@ == "failed to fill whole buffer"@,
    }
}

pub open spec fn corrupt(offset: u64, reason: &'static str) -> Fault {
    Fault::Corrupt { offset, reason: reason@ }
}

pub fn short_read() -> (error: Error)
    ensures
        reports(error, Fault::ShortRead),
{
    Error::Io("failed to fill whole buffer".to_owned())
}

/// A count times the 72 bytes of a point, as far as the number goes.
pub open spec fn logical_bytes(points: u64) -> u64 {
    if points * 72 > u64::MAX {
        u64::MAX
    } else {
        (points * 72) as u64
    }
}

fn logical_point_bytes(points: u64) -> (bytes: u64)
    ensures
        bytes == logical_bytes(points),
{
    match points.checked_mul(72) {
        Some(bytes) => bytes,
        None => u64::MAX,
    }
}

// Blocks.

/// Where the block that starts at `s` and reaches to `e` ends: it goes on while
/// the series stays the same and there is room.
pub open spec fn block_end(o: Seq<Point>, s: int, e: int, block_points: nat) -> int
    decreases o.len() - e,
{
    if e < o.len() && e - s < block_points && o[e].series_id == o[s].series_id {
        block_end(o, s, e + 1, block_points)
    } else {
        e
    }
}

/// The blocks of the points from `s` on.
pub open spec fn blocks_from(o: Seq<Point>, s: int, block_points: nat) -> Seq<Seq<Point>>
    decreases o.len() - s,
{
    let e = block_end(o, s, s + 1, block_points);
    if 0 <= s < e <= o.len() {
        seq![o.subrange(s, e)] + blocks_from(o, e, block_points)
    } else {
        Seq::empty()
    }
}

/// Whether `packs` holds an LZ4 block for the columns of each block of points.
pub open spec fn is_packed(blocks: Seq<Seq<Point>>, packs: Seq<Seq<u8>>) -> bool {
    &&& packs.len() == blocks.len()
    &&& forall|i: int|
        0 <= i < blocks.len() ==> is_pack(encoded_columns(#[trigger] blocks[i]), packs[i])
}

/// How a block of points with the LZ4 block `pack` is stored: compressed where that
/// makes it shorter and can be read again.
pub open spec fn stored_payload(block: Seq<Point>, pack: Seq<u8>) -> (u8, Seq<u8>) {
    let raw = encoded_columns(block);
    let compressed = le(raw.len(), 4) + pack;
    if compressed.len() < raw.len() && short_runs(pack) {
        (COMPRESSION_LZ4, compressed)
    } else {
        (COMPRESSION_RAW, raw)
    }
}

/// The fields of a block header before its checksum.
pub open spec fn block_fields(
    compression: u8,
    series_id: u64,
    points: u32,
    uncompressed_len: u32,
    payload_len: u32,
    payload_crc: u32,
    min_time: i64,
    max_time: i64,
) -> Seq<(u128, usize)> {
    seq![
        (BLOCK_MAGIC as u128, 4usize),
        (BLOCK_VERSION as u128, 2usize),
        (compression as u128, 1usize),
        (BLOCK_ENCODING_COLUMN_V1 as u128, 1usize),
        (series_id as u128, 8usize),
        (points as u128, 4usize),
        (uncompressed_len as u128, 4usize),
        (payload_len as u128, 4usize),
        (payload_crc as u128, 4usize),
        (bits_of_i64(min_time) as u128, 8usize),
        (bits_of_i64(max_time) as u128, 8usize),
    ]
}

/// A block header: its fields, their checksum and four zero bytes.
pub open spec fn block_header(fields: Seq<(u128, usize)>) -> Seq<u8> {
    packed(fields) + packed(seq![(crc32_of(packed(fields)) as u128, 4usize), (0u128, 4usize)])
}

/// The fields of the header of a block of points.
pub open spec fn fields_of(block: Seq<Point>, pack: Seq<u8>) -> Seq<(u128, usize)> {
    let (compression, payload) = stored_payload(block, pack);
    block_fields(
        compression,
        block[0].series_id,
        block.len() as u32,
        encoded_columns(block).len() as u32,
        payload.len() as u32,
        crc32_of(payload),
        block[0].valid_time,
        block.last().valid_time,
    )
}

/// The bytes of a block.
pub open spec fn block_bytes(block: Seq<Point>, pack: Seq<u8>) -> Seq<u8> {
    block_header(fields_of(block, pack)) + stored_payload(block, pack).1
}

/// The bytes of the first `n` blocks.
pub open spec fn body(blocks: Seq<Seq<Point>>, packs: Seq<Seq<u8>>, n: nat) -> Seq<u8>
    decreases n,
{
    if n == 0 {
        Seq::empty()
    } else {
        body(blocks, packs, (n - 1) as nat) + block_bytes(blocks[n - 1], packs[n - 1])
    }
}

/// The index entry of block `i`.
pub open spec fn entry_of(blocks: Seq<Seq<Point>>, packs: Seq<Seq<u8>>, i: int) -> IndexEntry {
    let block = blocks[i];
    IndexEntry {
        series_id: block[0].series_id,
        min_time: block[0].valid_time,
        max_time: block.last().valid_time,
        offset: (40 + body(blocks, packs, i as nat).len()) as u64,
        length: block_bytes(block, packs[i]).len() as u32,
        points: block.len() as u32,
    }
}

pub open spec fn index_of(blocks: Seq<Seq<Point>>, packs: Seq<Seq<u8>>) -> Seq<IndexEntry> {
    Seq::new(blocks.len(), |i: int| entry_of(blocks, packs, i))
}

pub open spec fn entry_fields(entry: IndexEntry) -> Seq<(u128, usize)> {
    seq![
        (entry.series_id as u128, 8usize),
        (bits_of_i64(entry.min_time) as u128, 8usize),
        (bits_of_i64(entry.max_time) as u128, 8usize),
        (entry.offset as u128, 8usize),
        (entry.length as u128, 4usize),
        (entry.points as u128, 4usize),
    ]
}

/// The bytes of the first `n` index entries.
pub open spec fn entries_bytes(index: Seq<IndexEntry>, n: nat) -> Seq<u8>
    decreases n,
{
    if n == 0 {
        Seq::empty()
    } else {
        entries_bytes(index, (n - 1) as nat) + packed(entry_fields(index[n - 1]))
    }
}

pub open spec fn index_header(index: Seq<IndexEntry>) -> Seq<(u128, usize)> {
    seq![
        (INDEX_MAGIC as u128, 4usize),
        (INDEX_VERSION as u128, 2usize),
        (INDEX_ENTRY_BYTES as u128, 2usize),
        (index.len() as u128, 4usize),
        (crc32_of(entries_bytes(index, index.len())) as u128, 4usize),
    ]
}

pub open spec fn segment_fields(
    blocks: u32,
    points: u64,
    index_offset: u64,
    index_bytes: u32,
) -> Seq<(u128, usize)> {
    seq![
        (SEGMENT_MAGIC as u128, 8usize),
        (SEGMENT_VERSION as u128, 2usize),
        (0u128, 2usize),
        (blocks as u128, 4usize),
        (points as u128, 8usize),
        (index_offset as u128, 8usize),
        (index_bytes as u128, 4usize),
    ]
}

pub open spec fn segment_header(fields: Seq<(u128, usize)>) -> Seq<u8> {
    packed(fields) + packed(seq![(crc32_of(packed(fields)) as u128, 4usize)])
}

/// The bytes of a segment.
pub open spec fn segment_bytes(
    blocks: Seq<Seq<Point>>,
    packs: Seq<Seq<u8>>,
    points: u64,
) -> Seq<u8> {
    let stored = body(blocks, packs, blocks.len());
    let index = index_of(blocks, packs);
    segment_header(
        segment_fields(
            blocks.len() as u32,
            points,
            (40 + stored.len()) as u64,
            (16 + 40 * blocks.len()) as u32,
        ),
    ) + stored + packed(index_header(index)) + entries_bytes(index, index.len())
}

/// Why points cannot be made a segment, if they cannot.
pub open spec fn create_fault(o: Seq<Point>, block_points: nat) -> Option<&'static str> {
    let blocks = blocks_from(o, 0, block_points);
    if exists|i: int| 0 <= i < blocks.len() && !encodable(#[trigger] blocks[i]) {
        Some("timestamp delta overflows i64")
    } else if blocks.len() > u32::MAX {
        Some("too many segment blocks")
    } else if 16 + 40 * blocks.len() > u32::MAX {
        Some("segment index is too large")
    } else {
        None
    }
}

// Reading.

pub open spec fn signed_field(b: Seq<u8>, at: int) -> i64 {
    i64_of_bits(field(b, at, 8))
}

/// The points of a block from its header and payload.
pub open spec fn payload_points(
    header: Seq<u8>,
    payload: Seq<u8>,
    entry: IndexEntry,
) -> Result<Seq<Point>, Fault> {
    let at = entry.offset;
    let uncompressed = field(header, 20, 4);
    if crc32_of(payload) != field(header, 28, 4) {
        Err(corrupt(at, "block payload checksum mismatch"))
    } else if header[6] == COMPRESSION_RAW {
        raw_points(payload, uncompressed, entry)
    } else if header[6] == COMPRESSION_LZ4 {
        if payload.len() < 4 {
            Err(corrupt(at, "LZ4 block is too short"))
        } else if field(payload, 0, 4) != uncompressed {
            Err(corrupt(at, "LZ4 size prefix disagrees with block header"))
        } else if uncompressed > (payload.len() - 4) * MAX_LZ4_RATIO {
            Err(corrupt(at, "block uncompressed length exceeds LZ4 capacity"))
        } else if !short_runs(payload.subrange(4, payload.len() as int)) {
            Err(corrupt(at, "LZ4 block has an overlong length"))
        } else {
            match lz4_content(payload.subrange(4, payload.len() as int), uncompressed) {
                Ok(raw) => raw_points(raw, uncompressed, entry),
                Err(text) => Err(
                    Fault::Corrupt { offset: at, reason: "invalid LZ4 block: "@ + text },
                ),
            }
        }
    } else {
        Err(corrupt(at, "unknown block compression"))
    }
}

/// The points of an uncompressed block.
pub open spec fn raw_points(raw: Seq<u8>, uncompressed: nat, entry: IndexEntry) -> Result<
    Seq<Point>,
    Fault,
> {
    if raw.len() != uncompressed {
        Err(corrupt(entry.offset, "block uncompressed length mismatch"))
    } else {
        match decoded_columns(raw, entry.series_id, entry.points as nat) {
            Ok(points) => Ok(points),
            Err(reason) => Err(corrupt(entry.offset, reason)),
        }
    }
}

/// The fault of a block header, held against the index entry of the block.
pub open spec fn block_header_fault(header: Seq<u8>, entry: IndexEntry) -> Option<Fault> {
    let at = entry.offset;
    let uncompressed = field(header, 20, 4);
    if field(header, 0, 4) != BLOCK_MAGIC {
        Some(corrupt(at, "invalid block magic"))
    } else if field(header, 4, 2) != BLOCK_VERSION || header[7] != BLOCK_ENCODING_COLUMN_V1 {
        Some(corrupt(at, "unsupported block encoding"))
    } else if crc32_of(header.subrange(0, 48)) != field(header, 48, 4) {
        Some(corrupt(at, "block header checksum mismatch"))
    } else if field(header, 8, 8) != entry.series_id || field(header, 16, 4) != entry.points
        || signed_field(header, 32) != entry.min_time || signed_field(header, 40) != entry.max_time
        || 56 + field(header, 24, 4) != entry.length {
        Some(corrupt(at, "block header disagrees with index"))
    } else if uncompressed < minimum_bytes(entry.points as nat) || uncompressed > maximum_bytes(
        entry.points as nat,
    ) {
        Some(corrupt(at, "block uncompressed length is out of bounds"))
    } else {
        None
    }
}

/// The points of the block that an index entry describes.
pub open spec fn block_points(b: Seq<u8>, entry: IndexEntry) -> Result<Seq<Point>, Fault> {
    let at = entry.offset as int;
    let header = b.subrange(at, at + 56);
    if at + 56 > b.len() {
        Err(Fault::ShortRead)
    } else if block_header_fault(header, entry) is Some {
        Err(block_header_fault(header, entry)->0)
    } else if at + entry.length > b.len() {
        Err(Fault::ShortRead)
    } else {
        payload_points(header, b.subrange(at + 56, at + entry.length), entry)
    }
}

/// The entry in the 40 bytes at `at`.
pub open spec fn entry_at(b: Seq<u8>, at: int) -> IndexEntry {
    IndexEntry {
        series_id: field(b, at, 8) as u64,
        min_time: signed_field(b, at + 8),
        max_time: signed_field(b, at + 16),
        offset: field(b, at + 24, 8) as u64,
        length: field(b, at + 32, 4) as u32,
        points: field(b, at + 36, 4) as u32,
    }
}

/// The `n` entries from `at` on.
pub open spec fn entries_at(b: Seq<u8>, at: int, n: nat) -> Seq<IndexEntry> {
    Seq::new(n, |i: int| entry_at(b, at + 40 * i))
}

/// Where the block after entry `i - 1` must start.
pub open spec fn expected_offset(index: Seq<IndexEntry>, i: int) -> int {
    if i == 0 {
        40
    } else {
        index[i - 1].offset + index[i - 1].length
    }
}

/// Whether entry `b` may follow entry `a`.
pub open spec fn entries_sorted(a: IndexEntry, b: IndexEntry) -> bool {
    !(b.series_id < a.series_id || (b.series_id == a.series_id && b.min_time < a.min_time))
}

/// The rule that entry `i` breaks, if it breaks one.
pub open spec fn entry_fault(index: Seq<IndexEntry>, i: int, index_offset: u64) -> Option<
    &'static str,
> {
    let entry = index[i];
    let payload = if entry.length < 56 {
        0
    } else {
        entry.length - 56
    };
    if entry.points == 0 || entry.points > MAX_BLOCK_POINTS || entry.min_time > entry.max_time
        || entry.offset != expected_offset(index, i) || entry.offset + entry.length
        > index_offset {
        Some("invalid segment index entry")
    } else if minimum_bytes(entry.points as nat) > payload * MAX_LZ4_RATIO {
        Some("segment index point count exceeds block capacity")
    } else if i > 0 && !entries_sorted(index[i - 1], entry) {
        Some("segment index is not sorted")
    } else {
        None
    }
}

/// The fault of the first of `n` entries that has one.
pub open spec fn entries_fault(index: Seq<IndexEntry>, n: nat, index_offset: u64) -> Option<
    &'static str,
>
    decreases n,
{
    if n == 0 {
        None
    } else if entries_fault(index, (n - 1) as nat, index_offset) is Some {
        entries_fault(index, (n - 1) as nat, index_offset)
    } else {
        entry_fault(index, n - 1, index_offset)
    }
}

/// The points that the first `n` entries count.
pub open spec fn counted(index: Seq<IndexEntry>, n: nat) -> nat
    decreases n,
{
    if n == 0 {
        0
    } else {
        counted(index, (n - 1) as nat) + index[n - 1].points as nat
    }
}

/// The fault of an index, if it has one.
pub open spec fn index_fault(index: Seq<IndexEntry>, index_offset: u64, points: u64) -> Option<
    &'static str,
> {
    if entries_fault(index, index.len(), index_offset) is Some {
        entries_fault(index, index.len(), index_offset)
    } else if counted(index, index.len()) != points || expected_offset(index, index.len() as int)
        != index_offset {
        Some("segment index coverage or point count mismatch")
    } else {
        None
    }
}

/// The index of a segment, or the first thing that is wrong with the segment.
pub open spec fn opened(b: Seq<u8>) -> Result<Seq<IndexEntry>, Fault> {
    let count = field(b, 12, 4);
    let at = field(b, 24, 8);
    let index_bytes = field(b, 32, 4);
    let i = at as int;
    let index = entries_at(b, i + 16, count);
    if b.len() < 56 {
        Err(corrupt(0, "segment is too small"))
    } else if field(b, 0, 8) != SEGMENT_MAGIC {
        Err(corrupt(0, "invalid segment magic"))
    } else if field(b, 8, 2) != SEGMENT_VERSION {
        Err(corrupt(0, "unsupported segment version"))
    } else if crc32_of(b.subrange(0, 36)) != field(b, 36, 4) {
        Err(corrupt(0, "segment header checksum mismatch"))
    } else if at < 40 || at + index_bytes != b.len() {
        Err(corrupt(0, "invalid segment index bounds"))
    } else if index_bytes < 16 {
        Err(Fault::ShortRead)
    } else if field(b, i, 4) != INDEX_MAGIC {
        Err(corrupt(at as u64, "invalid segment index magic"))
    } else if field(b, i + 4, 2) != INDEX_VERSION || field(b, i + 6, 2) != INDEX_ENTRY_BYTES
        || field(b, i + 8, 4) != count {
        Err(corrupt(at as u64, "unsupported segment index layout"))
    } else if index_bytes != 16 + 40 * count {
        Err(corrupt(at as u64, "segment index length mismatch"))
    } else if crc32_of(b.subrange(i + 16, b.len() as int)) != field(b, i + 12, 4) {
        Err(corrupt(at as u64, "segment index checksum mismatch"))
    } else {
        match index_fault(index, at as u64, field(b, 16, 8) as u64) {
            Some(reason) => Err(corrupt(at as u64, reason)),
            None => Ok(index),
        }
    }
}

/// What a readable segment holds.
pub open spec fn stats_of(b: Seq<u8>) -> SegmentStats {
    let points = field(b, 16, 8) as u64;
    SegmentStats {
        blocks: field(b, 12, 4) as u32,
        points,
        stored_bytes: b.len() as u64,
        logical_point_bytes: logical_bytes(points),
    }
}

/// The points whose valid time lies in `start..end`.
pub open spec fn in_range(p: Seq<Point>, start: i64, end: i64) -> Seq<Point>
    decreases p.len(),
{
    if p.len() == 0 {
        Seq::empty()
    } else {
        let front = in_range(p.drop_last(), start, end);
        if start <= p.last().valid_time < end {
            front.push(p.last())
        } else {
            front
        }
    }
}

/// Whether a block can hold points of a series in `start..end`.
pub open spec fn selected(entry: IndexEntry, series_id: u64, start: i64, end: i64) -> bool {
    entry.series_id == series_id && entry.max_time >= start && entry.min_time < end
}

/// The points of a series in `start..end` among the first `n` blocks. Blocks that
/// cannot hold such points are not looked at.
pub open spec fn queried(
    b: Seq<u8>,
    index: Seq<IndexEntry>,
    n: nat,
    series_id: u64,
    start: i64,
    end: i64,
) -> Result<Seq<Point>, Fault>
    decreases n,
{
    if n == 0 {
        Ok(Seq::empty())
    } else {
        match queried(b, index, (n - 1) as nat, series_id, start, end) {
            Err(e) => Err(e),
            Ok(front) => if selected(index[n - 1], series_id, start, end) {
                match block_points(b, index[n - 1]) {
                    Err(e) => Err(e),
                    Ok(points) => Ok(front + in_range(points, start, end)),
                }
            } else {
                Ok(front)
            },
        }
    }
}


// Writing.

pub proof fn lemma_block_end(o: Seq<Point>, s: int, e: int, block_points: nat)
    requires
        0 <= s < e <= o.len(),
        e - s <= block_points,
        forall|i: int| s <= i < e ==> (#[trigger] o[i]).series_id == o[s].series_id,
    ensures
        e <= block_end(o, s, e, block_points) <= o.len(),
        block_end(o, s, e, block_points) - s <= block_points,
        forall|i: int|
            s <= i < block_end(o, s, e, block_points) ==> (#[trigger] o[i]).series_id
                == o[s].series_id,
    decreases o.len() - e,
{
    if e < o.len() && e - s < block_points && o[e].series_id == o[s].series_id {
        lemma_block_end(o, s, e + 1, block_points);
    }
}

/// A block of points as the writer makes it.
pub open spec fn block_ok(block: Seq<Point>, block_points: nat) -> bool {
    &&& 0 < block.len() <= block_points
    &&& forall|i: int| 0 <= i < block.len() ==> (#[trigger] block[i]).series_id
        == block[0].series_id
}

pub proof fn lemma_blocks(o: Seq<Point>, s: int, block_points: nat)
    requires
        0 <= s <= o.len(),
        0 < block_points,
    ensures
        forall|i: int|
            0 <= i < blocks_from(o, s, block_points).len() ==> block_ok(
                #[trigger] blocks_from(o, s, block_points)[i],
                block_points,
            ),
        concat(blocks_from(o, s, block_points)) == o.subrange(s, o.len() as int),
    decreases o.len() - s,
{
    let blocks = blocks_from(o, s, block_points);
    if s < o.len() {
        lemma_block_end(o, s, s + 1, block_points);
        let e = block_end(o, s, s + 1, block_points);
        lemma_blocks(o, e, block_points);
        let rest = blocks_from(o, e, block_points);
        let first = o.subrange(s, e);
        assert(block_ok(first, block_points));
        assert forall|i: int| 0 <= i < blocks.len() implies block_ok(
            #[trigger] blocks[i],
            block_points,
        ) by {
            if i > 0 {
                assert(blocks[i] == rest[i - 1]);
            }
        }
        lemma_concat_first(first, rest);
        assert(first + o.subrange(e, o.len() as int) =~= o.subrange(s, o.len() as int));
    } else {
        assert(blocks =~= Seq::empty());
        assert(o.subrange(s, o.len() as int) =~= Seq::empty());
    }
}

/// The points of all blocks, one behind the other.
pub open spec fn concat(blocks: Seq<Seq<Point>>) -> Seq<Point>
    decreases blocks.len(),
{
    if blocks.len() == 0 {
        Seq::empty()
    } else {
        concat(blocks.drop_last()) + blocks.last()
    }
}

proof fn lemma_concat_first(first: Seq<Point>, rest: Seq<Seq<Point>>)
    ensures
        concat(seq![first] + rest) == first + concat(rest),
    decreases rest.len(),
{
    let all = seq![first] + rest;
    if rest.len() == 0 {
        assert(all.drop_last() =~= Seq::empty());
        assert(all.last() == first);
        assert(concat(all.drop_last()) =~= Seq::empty());
        assert(concat(all) =~= first + concat(rest));
    } else {
        lemma_concat_first(first, rest.drop_last());
        assert(all.drop_last() =~= seq![first] + rest.drop_last());
        assert(all.last() == rest.last());
        assert(concat(all) =~= first + concat(rest));
    }
}

/// Appends a block.
fn put_block(out: &mut Vec<u8>, block: &[Point]) -> (outcome: Result<
    (u32, Ghost<Seq<u8>>),
    Error,
>)
    requires
        block_ok(block@, MAX_BLOCK_POINTS as nat),
    ensures
        match outcome {
            Ok((length, pack)) => {
                &&& encodable(block@)
                &&& final(out)@ == old(out)@ + block_bytes(block@, pack@)
                &&& length == block_bytes(block@, pack@).len()
                &&& is_pack(encoded_columns(block@), pack@)
                &&& stored_payload(block@, pack@).1.len() <= u32::MAX - 56
            },
            Err(e) => !encodable(block@) && unserializable(
                e,
                "timestamp delta overflows i64"@,
            ),
        },
{
    let ghost b = block@;
    proof {
        if encodable(b) {
            encoded_size_bounds(b);
        }
    }
    let raw: Vec<u8> = match encode_columns(block) {
        Ok(raw) => raw,
        Err(reason) => {
            return Err(Error::Serialization(reason.to_owned()));
        },
    };
    let compressed: Vec<u8> = compress(raw.as_slice());
    let ghost pack = compressed@.subrange(4, compressed@.len() as int);
    let uncompressed_len: u32 = raw.len() as u32;
    proof {
        lemma_le_len(raw@.len(), 4);
        assert(compressed@ =~= le(raw@.len(), 4) + pack);
    }
    let readable: bool = has_short_runs(&compressed.as_slice()[4..compressed.len()]);
    let (compression, payload) = if compressed.len() < raw.len() && readable {
        (COMPRESSION_LZ4, compressed)
    } else {
        (COMPRESSION_RAW, raw)
    };
    let payload_crc: u32 = crc32(payload.as_slice());
    let min_time: i64 = block[0].valid_time;
    let max_time: i64 = block[block.len() - 1].valid_time;
    proof {
        lemma_i64_bits(min_time);
        lemma_i64_bits(max_time);
    }
    let fields: [(u128, usize); 11] = [
        (BLOCK_MAGIC as u128, 4),
        (BLOCK_VERSION as u128, 2),
        (compression as u128, 1),
        (BLOCK_ENCODING_COLUMN_V1 as u128, 1),
        (block[0].series_id as u128, 8),
        (block.len() as u32 as u128, 4),
        (uncompressed_len as u128, 4),
        (payload.len() as u32 as u128, 4),
        (payload_crc as u128, 4),
        (min_time as u64 as u128, 8),
        (max_time as u64 as u128, 8),
    ];
    assert(fields@ =~= fields_of(b, pack));
    let mut header: Vec<u8> = Vec::new();
    put_fields(&mut header, fields.as_slice());
    assert(header@ =~= packed(fields_of(b, pack)));
    let sum: u32 = crc32(header.as_slice());
    let tail: [(u128, usize); 2] = [(sum as u128, 4), (0, 4)];
    assert(tail@ =~= seq![(sum as u128, 4usize), (0u128, 4usize)]);
    put_fields(&mut header, tail.as_slice());
    proof {
        lemma_block_header_len(fields_of(b, pack));
    }
    put_bytes(out, header.as_slice());
    put_bytes(out, payload.as_slice());
    assert(out@ =~= old(out)@ + block_bytes(b, pack));
    Ok((BLOCK_HEADER_BYTES as u32 + payload.len() as u32, Ghost(pack)))
}

proof fn lemma_block_header_len(fields: Seq<(u128, usize)>)
    requires
        exists|c: u8, s: u64, n: u32, u: u32, p: u32, k: u32, a: i64, z: i64|
            fields == #[trigger] block_fields(c, s, n, u, p, k, a, z),
    ensures
        packed(fields).len() == 48,
        block_header(fields).len() == 56,
{
    let tail = seq![(crc32_of(packed(fields)) as u128, 4usize), (0u128, 4usize)];
    lemma_packed_len(fields, 11);
    lemma_packed_len(tail, 2);
    reveal_with_fuel(offset_of, 12);
}

/// Overwrites the start of a vector.
fn overwrite(out: &mut Vec<u8>, start: &Vec<u8>)
    requires
        start@.len() <= old(out)@.len(),
    ensures
        final(out)@ == start@ + old(out)@.subrange(start@.len() as int, old(out)@.len() as int),
{
    let ghost was = out@;
    let mut i: usize = 0;
    while i < start.len()
        invariant
            i <= start@.len() <= was.len(),
            out@ == start@.take(i as int) + was.subrange(i as int, was.len() as int),
        decreases start@.len() - i,
    {
        let ghost before = out@;
        out.set(i, start[i]);
        i = i + 1;
        assert(out@ =~= start@.take(i as int) + was.subrange(i as int, was.len() as int));
    }
    assert(start@.take(start@.len() as int) =~= start@);
}

fn put_entries(out: &mut Vec<u8>, index: &Vec<IndexEntry>)
    ensures
        final(out)@ == old(out)@ + entries_bytes(index@, index@.len()),
{
    let mut n: usize = 0;
    assert(out@ =~= old(out)@ + entries_bytes(index@, 0));
    while n < index.len()
        invariant
            n <= index@.len(),
            out@ == old(out)@ + entries_bytes(index@, n as nat),
        decreases index@.len() - n,
    {
        let entry = index[n];
        proof {
            lemma_i64_bits(entry.min_time);
            lemma_i64_bits(entry.max_time);
        }
        let fields: [(u128, usize); 6] = [
            (entry.series_id as u128, 8),
            (entry.min_time as u64 as u128, 8),
            (entry.max_time as u64 as u128, 8),
            (entry.offset as u128, 8),
            (entry.length as u128, 4),
            (entry.points as u128, 4),
        ];
        assert(fields@ =~= entry_fields(entry));
        put_fields(out, fields.as_slice());
        n = n + 1;
        assert(out@ =~= old(out)@ + entries_bytes(index@, n as nat));
    }
}

proof fn lemma_entries_len(index: Seq<IndexEntry>, n: nat)
    requires
        n <= index.len(),
    ensures
        entries_bytes(index, n).len() == 40 * n,
    decreases n,
{
    if n > 0 {
        lemma_entries_len(index, (n - 1) as nat);
        lemma_packed_len(entry_fields(index[n - 1]), 6);
        reveal_with_fuel(offset_of, 7);
    }
}

proof fn lemma_index_header_len(index: Seq<IndexEntry>)
    ensures
        packed(index_header(index)).len() == 16,
{
    lemma_packed_len(index_header(index), 5);
    reveal_with_fuel(offset_of, 6);
}

proof fn lemma_segment_header_len(blocks: u32, points: u64, at: u64, bytes: u32)
    ensures
        packed(segment_fields(blocks, points, at, bytes)).len() == 36,
        segment_header(segment_fields(blocks, points, at, bytes)).len() == 40,
{
    let fields = segment_fields(blocks, points, at, bytes);
    let tail = seq![(crc32_of(packed(fields)) as u128, 4usize)];
    lemma_packed_len(fields, 7);
    lemma_packed_len(tail, 1);
    reveal_with_fuel(offset_of, 8);
}

/// Whether a segment holds the blocks: its index describes them, and each block
/// is read back.
pub open spec fn holds_blocks(
    b: Seq<u8>,
    blocks: Seq<Seq<Point>>,
    packs: Seq<Seq<u8>>,
) -> bool {
    &&& opened(b) matches Ok(index) && index == index_of(blocks, packs)
    &&& forall|i: int|
        0 <= i < blocks.len() ==> (block_points(
            b,
            #[trigger] entry_of(blocks, packs, i),
        ) matches Ok(p) && p == blocks[i])
}

/// The stored blocks depend on no LZ4 block behind them.
proof fn lemma_body_agrees(blocks: Seq<Seq<Point>>, p: Seq<Seq<u8>>, q: Seq<Seq<u8>>, n: nat)
    requires
        forall|i: int| 0 <= i < n ==> p[i] == #[trigger] q[i],
    ensures
        body(blocks, p, n) == body(blocks, q, n),
    decreases n,
{
    if n > 0 {
        assert(p[n - 1] == q[n - 1]);
        lemma_body_agrees(blocks, p, q, (n - 1) as nat);
    }
}

/// The stored blocks, the index, and whether every block can be unpacked again.
spec fn written(
    out: Seq<u8>,
    index: Seq<IndexEntry>,
    blocks: Seq<Seq<Point>>,
    packs: Seq<Seq<u8>>,
    n: nat,
) -> bool {
    &&& n <= blocks.len()
    &&& packs.len() == n
    &&& out.len() == 40 + body(blocks, packs, n).len()
    &&& out.subrange(40, out.len() as int) == body(blocks, packs, n)
    &&& index == Seq::new(n, |i: int| entry_of(blocks, packs, i))
    &&& forall|i: int|
        0 <= i < n ==> encodable(#[trigger] blocks[i]) && is_pack(
            encoded_columns(blocks[i]),
            packs[i],
        ) && stored_payload(blocks[i], packs[i]).1.len() <= u32::MAX - 56
}

#[verifier::loop_isolation(false)]
fn put_blocks(out: &mut Vec<u8>, ordered: &Vec<Point>, per_block: usize) -> (outcome: Result<
    (Vec<IndexEntry>, Ghost<Seq<Seq<u8>>>),
    Error,
>)
    requires
        0 < per_block <= MAX_BLOCK_POINTS,
        old(out)@.len() == 40,
    ensures
        ({
            let blocks = blocks_from(ordered@, 0, per_block as nat);
            match outcome {
                Ok((index, packs)) => written(final(out)@, index@, blocks, packs@, blocks.len()),
                Err(e) => unserializable(e, "timestamp delta overflows i64"@) && exists|i: int|
                    0 <= i < blocks.len() && !encodable(#[trigger] blocks[i]),
            }
        }),
{
    let ghost o = ordered@;
    let ghost blocks = blocks_from(o, 0, per_block as nat);
    let ghost mut packs: Seq<Seq<u8>> = Seq::empty();
    let mut index: Vec<IndexEntry> = Vec::new();
    let mut start: usize = 0;
    let total: usize = ordered.len();
    proof {
        lemma_blocks(o, 0, per_block as nat);
        assert(index@ =~= Seq::new(0, |i: int| entry_of(blocks, packs, i)));
        assert(out@.subrange(40, 40) =~= body(blocks, packs, 0));
    }
    while start < total
        invariant
            start <= total == o.len(),
            index@.len() <= start,
            blocks.subrange(index@.len() as int, blocks.len() as int) == blocks_from(
                o,
                start as int,
                per_block as nat,
            ),
            written(out@, index@, blocks, packs, index@.len()),
        decreases total - start,
    {
        let mut end: usize = start + 1;
        while end < total && end - start < per_block && ordered[end].series_id
            == ordered[start].series_id
            invariant
                start < end <= total,
                end - start <= per_block,
                forall|i: int| start <= i < end ==> (#[trigger] o[i]).series_id
                    == o[start as int].series_id,
                block_end(o, start as int, start + 1, per_block as nat) == block_end(
                    o,
                    start as int,
                    end as int,
                    per_block as nat,
                ),
            decreases total - end,
        {
            end = end + 1;
        }
        let block = &ordered.as_slice()[start..end];
        let ghost n = index@.len();
        let ghost before = out@;
        proof {
            let tail = blocks.subrange(n as int, blocks.len() as int);
            let from = blocks_from(o, start as int, per_block as nat);
            assert(block@ == o.subrange(start as int, end as int));
            assert(from[0] == block@);
            assert(tail[0] == blocks[n as int]);
            assert(blocks.subrange(n + 1int, blocks.len() as int) =~= from.subrange(
                1,
                from.len() as int,
            ));
            assert(from.subrange(1, from.len() as int) =~= blocks_from(
                o,
                end as int,
                per_block as nat,
            ));
            assert(block_ok(blocks[n as int], per_block as nat));
        }
        let offset: u64 = out.len() as u64;
        let (length, pack) = match put_block(out, block) {
            Ok(stored) => stored,
            Err(e) => {
                return Err(e);
            },
        };
        index.push(
            IndexEntry {
                series_id: block[0].series_id,
                min_time: block[0].valid_time,
                max_time: block[block.len() - 1].valid_time,
                offset,
                length,
                points: block.len() as u32,
            },
        );
        proof {
            let earlier = packs;
            packs = packs.push(pack@);
            lemma_body_agrees(blocks, earlier, packs, n);
            assert forall|i: int| 0 <= i < n implies entry_of(blocks, earlier, i) == entry_of(
                blocks,
                packs,
                i,
            ) by {
                lemma_body_agrees(blocks, earlier, packs, i as nat);
            }
            assert(index@ =~= Seq::new((n + 1) as nat, |i: int| entry_of(blocks, packs, i)));
            assert(out@.subrange(40, out@.len() as int) =~= before.subrange(
                40,
                before.len() as int,
            ) + block_bytes(block@, pack@));
        }
        start = end;
    }
    proof {
        let tail = blocks.subrange(index@.len() as int, blocks.len() as int);
        assert(tail =~= Seq::empty());
        assert(tail.len() == blocks.len() - index@.len());
    }
    Ok((index, Ghost(packs)))
}

// What is written is read back.

pub proof fn lemma_byte(b: Seq<u8>, at: int)
    requires
        0 <= at < b.len(),
    ensures
        field(b, at, 1) == b[at],
{
    let one = b.subrange(at, at + 1);
    reveal_with_fuel(from_le, 2);
    assert(one.subrange(1, 1).len() == 0);
}

/// The blocks of sorted points are sorted and follow each other in order.
proof fn lemma_blocks_sorted(o: Seq<Point>, s: int, block_points: nat)
    requires
        0 <= s <= o.len(),
        0 < block_points,
        key_sorted(o),
    ensures
        ({
            let blocks = blocks_from(o, s, block_points);
            &&& forall|i: int| 0 <= i < blocks.len() ==> key_sorted(#[trigger] blocks[i])
            &&& forall|i: int|
                0 < i < blocks.len() ==> !key_less((#[trigger] blocks[i])[0], blocks[i - 1][0])
            &&& blocks.len() > 0 ==> s < o.len() && blocks[0][0] == o[s]
        }),
    decreases o.len() - s,
{
    let blocks = blocks_from(o, s, block_points);
    if s < o.len() {
        lemma_block_end(o, s, s + 1, block_points);
        let e = block_end(o, s, s + 1, block_points);
        lemma_blocks_sorted(o, e, block_points);
        let rest = blocks_from(o, e, block_points);
        assert forall|i: int| 0 <= i < blocks.len() implies key_sorted(#[trigger] blocks[i]) by {
            if i > 0 {
                assert(blocks[i] == rest[i - 1]);
            } else {
                let first = o.subrange(s, e);
                assert forall|k: int, m: int|
                    #![trigger first[k], first[m]]
                    0 <= k < m < first.len() implies !key_less(first[m], first[k]) by {
                    let x = o[s + k];
                    let y = o[s + m];
                }
            }
        }
        assert forall|i: int| 0 < i < blocks.len() implies !key_less(
            (#[trigger] blocks[i])[0],
            blocks[i - 1][0],
        ) by {
            assert(blocks[i] == rest[i - 1]);
            if i > 1 {
                assert(blocks[i - 1] == rest[i - 2]);
            } else {
                let x = o[s];
                let y = o[e];
            }
        }
    }
}

/// What the writer knows of each block it wrote.
pub open spec fn sound_blocks(blocks: Seq<Seq<Point>>, packs: Seq<Seq<u8>>) -> bool {
    &&& is_packed(blocks, packs)
    &&& forall|i: int|
        0 <= i < blocks.len() ==> block_ok(#[trigger] blocks[i], 262144) && encodable(blocks[i])
            && key_sorted(blocks[i]) && stored_payload(blocks[i], packs[i]).1.len()
            <= u32::MAX - 56
    &&& forall|i: int|
        0 < i < blocks.len() ==> !key_less((#[trigger] blocks[i])[0], blocks[i - 1][0])
    &&& 16 + 40 * blocks.len() <= u32::MAX
    &&& 40 + body(blocks, packs, blocks.len()).len() + 16 + 40 * blocks.len() <= u64::MAX
}

proof fn lemma_body_prefix(blocks: Seq<Seq<Point>>, packs: Seq<Seq<u8>>, n: nat)
    requires
        n <= blocks.len(),
    ensures
        body(blocks, packs, n).len() <= body(blocks, packs, blocks.len()).len(),
        body(blocks, packs, blocks.len()).subrange(0, body(blocks, packs, n).len() as int) == body(
            blocks,
            packs,
            n,
        ),
    decreases blocks.len() - n,
{
    let all = body(blocks, packs, blocks.len());
    if n < blocks.len() {
        lemma_body_prefix(blocks, packs, n + 1);
        let longer = body(blocks, packs, n + 1);
        let shorter = body(blocks, packs, n);
        assert(longer.subrange(0, shorter.len() as int) =~= shorter);
        assert(all.subrange(0, longer.len() as int).subrange(0, shorter.len() as int)
            =~= all.subrange(0, shorter.len() as int));
    } else {
        assert(all.subrange(0, all.len() as int) =~= all);
    }
}

proof fn lemma_entries_prefix(index: Seq<IndexEntry>, n: nat)
    requires
        n <= index.len(),
    ensures
        entries_bytes(index, n).len() <= entries_bytes(index, index.len()).len(),
        entries_bytes(index, index.len()).subrange(0, entries_bytes(index, n).len() as int)
            == entries_bytes(index, n),
    decreases index.len() - n,
{
    let all = entries_bytes(index, index.len());
    if n < index.len() {
        lemma_entries_prefix(index, n + 1);
        let longer = entries_bytes(index, n + 1);
        let shorter = entries_bytes(index, n);
        assert(longer.subrange(0, shorter.len() as int) =~= shorter);
        assert(all.subrange(0, longer.len() as int).subrange(0, shorter.len() as int)
            =~= all.subrange(0, shorter.len() as int));
    } else {
        assert(all.subrange(0, all.len() as int) =~= all);
    }
}

/// An index entry is read back where it stands.
proof fn lemma_entry_read_back(b: Seq<u8>, at: int, index: Seq<IndexEntry>, i: int)
    requires
        0 <= i < index.len(),
        0 <= at,
        at + 40 * index.len() == b.len(),
        b.subrange(at, b.len() as int) == entries_bytes(index, index.len()),
    ensures
        entry_at(b, at + 40 * i) == index[i],
{
    let all = entries_bytes(index, index.len());
    lemma_entries_len(index, i as nat);
    lemma_entries_len(index, (i + 1) as nat);
    lemma_entries_len(index, index.len());
    lemma_entries_prefix(index, (i + 1) as nat);
    let fields = entry_fields(index[i]);
    let longer = entries_bytes(index, (i + 1) as nat);
    let here = at + 40 * i;
    lemma_i64_bits(index[i].min_time);
    lemma_i64_bits(index[i].max_time);
    lemma_pow256_values();
    lemma_packed_len(fields, 6);
    reveal_with_fuel(offset_of, 7);
    assert(packed(fields).len() == 40);
    assert(longer.subrange(40 * i, 40 * i + 40) =~= packed(fields));
    assert(all.subrange(0, 40 * i + 40).subrange(40 * i, 40 * i + 40) =~= all.subrange(
        40 * i,
        40 * i + 40,
    ));
    assert(b.subrange(at, b.len() as int).subrange(40 * i, 40 * i + 40) =~= b.subrange(
        here,
        here + 40,
    ));
    assert(fields_fit(fields));
    lemma_fields(fields, b, here);
    let f0 = fields[0];
    let f1 = fields[1];
    let f2 = fields[2];
    let f3 = fields[3];
    let f4 = fields[4];
    let f5 = fields[5];
}

proof fn lemma_counted(blocks: Seq<Seq<Point>>, packs: Seq<Seq<u8>>, n: nat)
    requires
        n <= blocks.len(),
        sound_blocks(blocks, packs),
    ensures
        counted(index_of(blocks, packs), n) == concat(blocks.take(n as int)).len(),
    decreases n,
{
    if n > 0 {
        lemma_counted(blocks, packs, (n - 1) as nat);
        assert(blocks.take(n as int).drop_last() =~= blocks.take(n - 1));
        assert(blocks.take(n as int).last() == blocks[n - 1]);
        assert(block_ok(blocks[n - 1], 262144));
    }
}

proof fn lemma_no_entry_fault(blocks: Seq<Seq<Point>>, packs: Seq<Seq<u8>>, n: nat)
    requires
        n <= blocks.len(),
        sound_blocks(blocks, packs),
    ensures
        entries_fault(
            index_of(blocks, packs),
            n,
            (40 + body(blocks, packs, blocks.len()).len()) as u64,
        ) is None,
        expected_offset(index_of(blocks, packs), n as int) == 40 + body(blocks, packs, n).len(),
    decreases n,
{
    let at = (40 + body(blocks, packs, blocks.len()).len()) as u64;
    let index = index_of(blocks, packs);
    if n > 0 {
        lemma_no_entry_fault(blocks, packs, (n - 1) as nat);
        let i = n - 1;
        let block = blocks[i];
        let entry = index[i];
        assert(block_ok(block, 262144));
        assert(encodable(block));
        let pack = packs[i];
        let payload = stored_payload(block, pack).1;
        lemma_block_header_len(fields_of(block, pack));
        lemma_body_prefix(blocks, packs, n);
        encoded_size_bounds(block);
        lemma_le_len(encoded_columns(block).len(), 4);
        assert(block_bytes(block, pack).len() == 56 + payload.len());
        assert(entry.length == 56 + payload.len());
        assert(key_sorted(block));
        let first = block[0];
        let last = block[block.len() - 1];
        assert(first.series_id == last.series_id);
        assert(entry.min_time <= entry.max_time);
        if i > 0 {
            assert(block_ok(blocks[i - 1], 262144));
            assert(!key_less(blocks[i][0], blocks[i - 1][0]));
            assert(entries_sorted(index[i - 1], entry));
        }
        assert(body(blocks, packs, n) == body(blocks, packs, (n - 1) as nat) + block_bytes(
            block,
            pack,
        ));
    }
}

/// A block is read back where it stands.
#[verifier::spinoff_prover]
#[verifier::rlimit(30)]
proof fn lemma_block_read_back(
    b: Seq<u8>,
    block: Seq<Point>,
    pack: Seq<u8>,
    entry: IndexEntry,
)
    requires
        block_ok(block, 262144),
        encodable(block),
        is_pack(encoded_columns(block), pack),
        stored_payload(block, pack).1.len() <= u32::MAX - 56,
        entry.series_id == block[0].series_id,
        entry.min_time == block[0].valid_time,
        entry.max_time == block.last().valid_time,
        entry.points == block.len(),
        entry.length == block_bytes(block, pack).len(),
        entry.offset + block_bytes(block, pack).len() <= b.len() <= u64::MAX,
        b.subrange(entry.offset as int, entry.offset + block_bytes(block, pack).len())
            == block_bytes(block, pack),
    ensures
        block_points(b, entry) matches Ok(p) && p == block,
{
    let at = entry.offset as int;
    let fields = fields_of(block, pack);
    let (compression, payload) = stored_payload(block, pack);
    let raw = encoded_columns(block);
    let sum = crc32_of(packed(fields));
    let tail = seq![(sum as u128, 4usize), (0u128, 4usize)];
    let whole = block_bytes(block, pack);
    encoded_size_bounds(block);
    lemma_block_header_len(fields);
    lemma_i64_bits(entry.min_time);
    lemma_i64_bits(entry.max_time);
    lemma_pow256_values();
    let header = b.subrange(at, at + 56);
    assert(whole.subrange(0, 56) =~= block_header(fields));
    assert(b.subrange(at, at + whole.len()).subrange(0, 56) =~= header);
    assert(header == block_header(fields));
    assert(header.subrange(0, 48) =~= packed(fields));
    assert(header.subrange(48, 56) =~= packed(tail));
    lemma_le_len(raw.len(), 4);
    assert(fields_fit(fields));
    assert(fields_fit(tail));
    lemma_packed_len(tail, 2);
    reveal_with_fuel(offset_of, 12);
    lemma_fields(fields, header, 0);
    lemma_fields(tail, header, 48);
    let t0 = tail[0];
    let f0 = fields[0];
    let f1 = fields[1];
    let f2 = fields[2];
    let f3 = fields[3];
    let f4 = fields[4];
    let f5 = fields[5];
    let f6 = fields[6];
    let f7 = fields[7];
    let f8 = fields[8];
    let f9 = fields[9];
    let f10 = fields[10];
    lemma_byte(header, 6);
    lemma_byte(header, 7);
    assert(block_header_fault(header, entry) is None);
    assert(whole.subrange(56, whole.len() as int) =~= payload);
    assert(b.subrange(at, at + whole.len()).subrange(56, whole.len() as int) =~= b.subrange(
        at + 56,
        at + whole.len(),
    ));
    columns_round_trip(block, entry.series_id);
    if compression == COMPRESSION_LZ4 {
        lemma_le_round_trip(raw.len(), 4);
        assert(payload.subrange(0, 4) =~= le(raw.len(), 4));
        assert(payload.subrange(4, payload.len() as int) =~= pack);
    }
}

/// The header and the index of a segment are read back.
#[verifier::spinoff_prover]
#[verifier::rlimit(30)]
proof fn lemma_opened(blocks: Seq<Seq<Point>>, packs: Seq<Seq<u8>>, b: Seq<u8>, points: u64)
    requires
        sound_blocks(blocks, packs),
        points == concat(blocks).len(),
        b == segment_bytes(blocks, packs, points),
    ensures
        opened(b) matches Ok(index) && index == index_of(blocks, packs),
        stats_of(b) == (SegmentStats {
            blocks: blocks.len() as u32,
            points,
            stored_bytes: b.len() as u64,
            logical_point_bytes: logical_bytes(points),
        }),
        b.subrange(40, 40 + body(blocks, packs, blocks.len()).len() as int) == body(
            blocks,
            packs,
            blocks.len(),
        ),
{
    let stored = body(blocks, packs, blocks.len());
    let index = index_of(blocks, packs);
    let n = blocks.len();
    let at = (40 + stored.len()) as u64;
    let index_bytes = (16 + 40 * n) as u32;
    let fields = segment_fields(n as u32, points, at, index_bytes);
    let sum = crc32_of(packed(fields));
    let tail = seq![(sum as u128, 4usize)];
    let head = segment_header(fields);
    let ifields = index_header(index);
    let entries = entries_bytes(index, n);
    lemma_segment_header_len(n as u32, points, at, index_bytes);
    lemma_index_header_len(index);
    lemma_entries_len(index, n);
    lemma_pow256_values();
    assert(b.len() == at + 16 + 40 * n);
    assert(b.subrange(0, 36) =~= packed(fields));
    assert(b.subrange(36, 40) =~= packed(tail)) by {
        lemma_packed_len(tail, 1);
        reveal_with_fuel(offset_of, 2);
    }
    assert(b.subrange(40, 40 + stored.len() as int) =~= stored);
    assert(b.subrange(at as int, at + 16) =~= packed(ifields));
    assert(b.subrange(at + 16, b.len() as int) =~= entries);
    assert(fields_fit(fields));
    assert(fields_fit(tail));
    assert(fields_fit(ifields));
    lemma_packed_len(tail, 1);
    reveal_with_fuel(offset_of, 8);
    lemma_fields(fields, b, 0);
    lemma_fields(tail, b, 36);
    lemma_fields(ifields, b, at as int);
    let t0 = tail[0];
    let f0 = fields[0];
    let f1 = fields[1];
    let f3 = fields[3];
    let f4 = fields[4];
    let f5 = fields[5];
    let f6 = fields[6];
    let i0 = ifields[0];
    let i1 = ifields[1];
    let i2 = ifields[2];
    let i3 = ifields[3];
    let i4 = ifields[4];
    assert forall|i: int| 0 <= i < n implies #[trigger] entries_at(b, at + 16, n)[i]
        == index[i] by {
        lemma_entry_read_back(b, at + 16, index, i);
    }
    assert(entries_at(b, at + 16, n) =~= index);
    lemma_no_entry_fault(blocks, packs, n);
    lemma_counted(blocks, packs, n);
    assert(blocks.take(n as int) =~= blocks);
}

/// A written segment holds its blocks.
proof fn lemma_holds_blocks(blocks: Seq<Seq<Point>>, packs: Seq<Seq<u8>>, b: Seq<u8>, points: u64)
    requires
        sound_blocks(blocks, packs),
        points == concat(blocks).len(),
        b == segment_bytes(blocks, packs, points),
        b.len() <= u64::MAX,
    ensures
        holds_blocks(b, blocks, packs),
{
    lemma_opened(blocks, packs, b, points);
    let stored = body(blocks, packs, blocks.len());
    lemma_segment_header_len(
        blocks.len() as u32,
        points,
        (40 + stored.len()) as u64,
        (16 + 40 * blocks.len()) as u32,
    );
    assert forall|i: int| 0 <= i < blocks.len() implies (block_points(
        b,
        #[trigger] entry_of(blocks, packs, i),
    ) matches Ok(p) && p == blocks[i]) by {
        let block = blocks[i];
        let pack = packs[i];
        let entry = entry_of(blocks, packs, i);
        assert(block_ok(block, 262144));
        lemma_body_prefix(blocks, packs, (i + 1) as nat);
        lemma_block_header_len(fields_of(block, pack));
        let before = body(blocks, packs, i as nat);
        let after = body(blocks, packs, (i + 1) as nat);
        let len = block_bytes(block, pack).len() as int;
        assert(after.subrange(before.len() as int, after.len() as int) =~= block_bytes(
            block,
            pack,
        ));
        assert(stored.subrange(0, after.len() as int).subrange(
            before.len() as int,
            after.len() as int,
        ) =~= stored.subrange(before.len() as int, after.len() as int));
        assert(b.subrange(40, 40 + stored.len() as int).subrange(
            before.len() as int,
            after.len() as int,
        ) =~= b.subrange(entry.offset as int, entry.offset + len));
        lemma_block_read_back(b, block, pack, entry);
    }
}

/// The points of a series whose valid time lies in `start..end`.
pub open spec fn matching(p: Seq<Point>, series_id: u64, start: i64, end: i64) -> Seq<Point>
    decreases p.len(),
{
    if p.len() == 0 {
        Seq::empty()
    } else {
        let front = matching(p.drop_last(), series_id, start, end);
        if p.last().series_id == series_id && start <= p.last().valid_time < end {
            front.push(p.last())
        } else {
            front
        }
    }
}

proof fn lemma_matching_concat(a: Seq<Point>, b: Seq<Point>, series_id: u64, start: i64, end: i64)
    ensures
        matching(a + b, series_id, start, end) == matching(a, series_id, start, end) + matching(
            b,
            series_id,
            start,
            end,
        ),
    decreases b.len(),
{
    if b.len() == 0 {
        assert(a + b =~= a);
        assert(matching(a, series_id, start, end) + matching(b, series_id, start, end) =~= matching(
            a,
            series_id,
            start,
            end,
        ));
    } else {
        lemma_matching_concat(a, b.drop_last(), series_id, start, end);
        assert((a + b).drop_last() =~= a + b.drop_last());
        assert((a + b).last() == b.last());
        assert(matching(a + b, series_id, start, end) =~= matching(a, series_id, start, end)
            + matching(b, series_id, start, end));
    }
}

proof fn lemma_matching_block(p: Seq<Point>, series_id: u64, start: i64, end: i64)
    ensures
        (forall|i: int| 0 <= i < p.len() ==> (#[trigger] p[i]).series_id == series_id) ==> matching(
            p,
            series_id,
            start,
            end,
        ) == in_range(p, start, end),
        (forall|i: int|
            0 <= i < p.len() ==> (#[trigger] p[i]).series_id != series_id || p[i].valid_time < start
                || p[i].valid_time >= end) ==> matching(p, series_id, start, end) == Seq::<
            Point,
        >::empty(),
    decreases p.len(),
{
    if p.len() > 0 {
        let front = p.drop_last();
        lemma_matching_block(front, series_id, start, end);
        if forall|i: int| 0 <= i < p.len() ==> (#[trigger] p[i]).series_id == series_id {
            assert forall|i: int| 0 <= i < front.len() implies (#[trigger] front[i]).series_id
                == series_id by {
                assert(front[i] == p[i]);
            }
            assert(p[p.len() - 1].series_id == series_id);
        }
        if forall|i: int|
            0 <= i < p.len() ==> (#[trigger] p[i]).series_id != series_id || p[i].valid_time < start
                || p[i].valid_time >= end {
            assert forall|i: int| 0 <= i < front.len() implies (#[trigger] front[i]).series_id
                != series_id || front[i].valid_time < start || front[i].valid_time >= end by {
                assert(front[i] == p[i]);
            }
            let last = p[p.len() - 1];
        }
    }
}

proof fn lemma_queried(
    blocks: Seq<Seq<Point>>,
    packs: Seq<Seq<u8>>,
    b: Seq<u8>,
    n: nat,
    series_id: u64,
    start: i64,
    end: i64,
)
    requires
        n <= blocks.len(),
        holds_blocks(b, blocks, packs),
        forall|i: int|
            0 <= i < blocks.len() ==> (#[trigger] blocks[i]).len() > 0 && key_sorted(blocks[i]) && (
            forall|j: int| 0 <= j < blocks[i].len() ==> (#[trigger] blocks[i][j]).series_id
                == blocks[i][0].series_id),
    ensures
        queried(b, index_of(blocks, packs), n, series_id, start, end) matches Ok(p) && p == matching(
            concat(blocks.take(n as int)),
            series_id,
            start,
            end,
        ),
    decreases n,
{
    if n == 0 {
        assert(blocks.take(0) =~= Seq::empty());
    } else {
        lemma_queried(blocks, packs, b, (n - 1) as nat, series_id, start, end);
        let block = blocks[n - 1];
        let entry = entry_of(blocks, packs, n - 1);
        assert(blocks.take(n as int).drop_last() =~= blocks.take(n - 1));
        assert(blocks.take(n as int).last() == block);
        let front = concat(blocks.take(n - 1));
        lemma_matching_concat(front, block, series_id, start, end);
        lemma_matching_block(block, series_id, start, end);
        assert(index_of(blocks, packs)[n - 1] == entry);
        if !selected(entry, series_id, start, end) {
            assert forall|i: int| 0 <= i < block.len() implies (#[trigger] block[i]).series_id
                != series_id || block[i].valid_time < start || block[i].valid_time >= end by {
                assert(block[i].series_id == block[0].series_id);
                let last = block[block.len() - 1];
                assert(last.series_id == block[0].series_id);
                assert(block[0].valid_time <= block[i].valid_time <= last.valid_time);
            }
            assert(matching(front, series_id, start, end) + Seq::<Point>::empty() =~= matching(
                front,
                series_id,
                start,
                end,
            ));
        } else {
            assert forall|i: int| 0 <= i < block.len() implies (#[trigger] block[i]).series_id
                == series_id by {
                assert(block[i].series_id == block[0].series_id);
            }
        }
    }
}

/// Blocks that can be written are sound.
proof fn lemma_sound(o: Seq<Point>, per_block: nat, packs: Seq<Seq<u8>>, points: u64)
    requires
        key_sorted(o),
        0 < per_block <= MAX_BLOCK_POINTS,
        create_fault(o, per_block) is None,
        is_packed(blocks_from(o, 0, per_block), packs),
        segment_bytes(blocks_from(o, 0, per_block), packs, points).len() <= u64::MAX,
    ensures
        sound_blocks(blocks_from(o, 0, per_block), packs),
        concat(blocks_from(o, 0, per_block)) == o,
{
    let blocks = blocks_from(o, 0, per_block);
    let index = index_of(blocks, packs);
    lemma_blocks(o, 0, per_block);
    lemma_blocks_sorted(o, 0, per_block);
    assert(o.subrange(0, o.len() as int) =~= o);
    lemma_segment_header_len(
        blocks.len() as u32,
        points,
        (40 + body(blocks, packs, blocks.len()).len()) as u64,
        (16 + 40 * blocks.len()) as u32,
    );
    lemma_index_header_len(index);
    lemma_entries_len(index, index.len());
    assert forall|i: int| 0 <= i < blocks.len() implies block_ok(#[trigger] blocks[i], 262144)
        && encodable(blocks[i]) && stored_payload(blocks[i], packs[i]).1.len() <= u32::MAX
        - 56 by {
        assert(block_ok(blocks[i], per_block));
        encoded_size_bounds(blocks[i]);
    }
}

/// A query of a written segment gives exactly the stored points of the series in
/// the asked range, in storage order, whatever LZ4 blocks its blocks were packed
/// into.
pub proof fn query_finds_what_was_stored(
    o: Seq<Point>,
    per_block: nat,
    packs: Seq<Seq<u8>>,
    series_id: u64,
    start: i64,
    end: i64,
)
    requires
        key_sorted(o),
        0 < per_block <= MAX_BLOCK_POINTS,
        create_fault(o, per_block) is None,
        is_packed(blocks_from(o, 0, per_block), packs),
        o.len() <= u64::MAX,
        segment_bytes(blocks_from(o, 0, per_block), packs, o.len() as u64).len() <= u64::MAX,
    ensures
        ({
            let b = segment_bytes(blocks_from(o, 0, per_block), packs, o.len() as u64);
            &&& opened(b) matches Ok(index)
            &&& queried(b, index, index.len(), series_id, start, end) matches Ok(p)
            &&& p == matching(o, series_id, start, end)
        }),
{
    let blocks = blocks_from(o, 0, per_block);
    let b = segment_bytes(blocks, packs, o.len() as u64);
    lemma_sound(o, per_block, packs, o.len() as u64);
    lemma_opened(blocks, packs, b, o.len() as u64);
    lemma_holds_blocks(blocks, packs, b, o.len() as u64);
    assert forall|i: int| 0 <= i < blocks.len() implies (#[trigger] blocks[i]).len() > 0
        && key_sorted(blocks[i]) && (forall|j: int|
        0 <= j < blocks[i].len() ==> (#[trigger] blocks[i][j]).series_id
            == blocks[i][0].series_id) by {
        assert(block_ok(blocks[i], 262144));
    }
    lemma_queried(blocks, packs, b, blocks.len(), series_id, start, end);
    assert(blocks.take(blocks.len() as int) =~= blocks);
}

/// Whether `b` is a segment of the blocks, with some LZ4 block for each, from which
/// they are read back.
pub open spec fn is_segment(
    b: Seq<u8>,
    blocks: Seq<Seq<Point>>,
    packs: Seq<Seq<u8>>,
    points: u64,
) -> bool {
    &&& is_packed(blocks, packs)
    &&& b == segment_bytes(blocks, packs, points)
    &&& holds_blocks(b, blocks, packs)
}

// Segments.

/// An immutable, indexed segment of raw points, read into memory.
pub struct Segment {
    data: Vec<u8>,
    index: Vec<IndexEntry>,
    stats: SegmentStats,
}

impl Segment {
    /// The bytes of the segment.
    pub closed spec fn bytes(&self) -> Seq<u8> {
        self.data@
    }

    /// The index of the segment.
    pub closed spec fn index(&self) -> Seq<IndexEntry> {
        self.index@
    }

    #[verifier::type_invariant]
    spec fn readable(self) -> bool {
        &&& opened(self.data@) matches Ok(index) && index == self.index@
        &&& self.stats == stats_of(self.data@)
    }

    /// Makes a segment of points in any order, with at most `block_points` points
    /// in a block.
    pub fn create(points: &[Point], block_points: usize) -> (outcome: Result<
        (Vec<u8>, SegmentStats),
        Error,
    >)
        ensures
            if block_points == 0 || block_points > MAX_BLOCK_POINTS {
                outcome matches Err(Error::InvalidConfig(reason)) && reason
                    == "segment block_points must be in 1..=262144"
            } else {
                exists|o: Seq<Point>| #[trigger]
                    stored_order(o, points@) && match outcome {
                        Ok((bytes, stats)) => {
                            let blocks = blocks_from(o, 0, block_points as nat);
                            &&& create_fault(o, block_points as nat) is None
                            &&& exists|packs: Seq<Seq<u8>>| #[trigger]
                                is_segment(bytes@, blocks, packs, points@.len() as u64)
                            &&& stats == stats_of(bytes@)
                            &&& stats == (SegmentStats {
                                blocks: blocks.len() as u32,
                                points: points@.len() as u64,
                                stored_bytes: bytes@.len() as u64,
                                logical_point_bytes: logical_bytes(points@.len() as u64),
                            })
                        },
                        Err(e) => create_fault(o, block_points as nat) matches Some(reason)
                            && unserializable(e, reason@),
                    }
            },
    {
        if block_points == 0 || block_points > MAX_BLOCK_POINTS as usize {
            return Err(Error::InvalidConfig("segment block_points must be in 1..=262144"));
        }
        let ordered: Vec<Point> = sort_points(points);
        let ghost o = ordered@;
        let ghost blocks = blocks_from(o, 0, block_points as nat);
        assert(stored_order(o, points@));
        let mut out: Vec<u8> = vec![0u8;40];
        let (index, packs) = match put_blocks(&mut out, &ordered, block_points) {
            Ok(stored) => stored,
            Err(e) => {
                return Err(e);
            },
        };
        let ghost packs = packs@;
        assert(index@ =~= index_of(blocks, packs));
        if index.len() > 0xffff_ffff {
            return Err(Error::Serialization("too many segment blocks".to_owned()));
        }
        let mut entries: Vec<u8> = Vec::new();
        put_entries(&mut entries, &index);
        assert(entries@ =~= entries_bytes(index@, index@.len()));
        let count: u32 = index.len() as u32;
        let index_bytes: u64 = 16 + 40 * (count as u64);
        if index_bytes > 0xffff_ffff {
            return Err(Error::Serialization("segment index is too large".to_owned()));
        }
        let index_offset: u64 = out.len() as u64;
        let ghost stored = out@.subrange(40, out@.len() as int);
        let entries_crc: u32 = crc32(entries.as_slice());
        let index_fields: [(u128, usize); 5] = [
            (INDEX_MAGIC as u128, 4),
            (INDEX_VERSION as u128, 2),
            (INDEX_ENTRY_BYTES as u128, 2),
            (count as u128, 4),
            (entries_crc as u128, 4),
        ];
        assert(index_fields@ =~= index_header(index@));
        put_fields(&mut out, index_fields.as_slice());
        put_bytes(&mut out, entries.as_slice());
        let fields: [(u128, usize); 7] = [
            (SEGMENT_MAGIC as u128, 8),
            (SEGMENT_VERSION as u128, 2),
            (0, 2),
            (count as u128, 4),
            (points.len() as u64 as u128, 8),
            (index_offset as u128, 8),
            (index_bytes as u128, 4),
        ];
        let ghost expected = segment_fields(
            count,
            points@.len() as u64,
            index_offset,
            index_bytes as u32,
        );
        assert(fields@ =~= expected);
        let mut header: Vec<u8> = Vec::new();
        put_fields(&mut header, fields.as_slice());
        assert(header@ =~= packed(expected));
        let sum: u32 = crc32(header.as_slice());
        let tail: [(u128, usize); 1] = [(sum as u128, 4)];
        assert(tail@ =~= seq![(sum as u128, 4usize)]);
        put_fields(&mut header, tail.as_slice());
        proof {
            lemma_segment_header_len(
                count,
                points@.len() as u64,
                index_offset,
                index_bytes as u32,
            );
        }
        let total: usize = out.len();
        overwrite(&mut out, &header);
        let stats = SegmentStats {
            blocks: count,
            points: points.len() as u64,
            stored_bytes: out.len() as u64,
            logical_point_bytes: logical_point_bytes(points.len() as u64),
        };
        proof {
            assert(out@ =~= segment_bytes(blocks, packs, points@.len() as u64));
            lemma_sound(o, block_points as nat, packs, points@.len() as u64);
            lemma_opened(blocks, packs, out@, points@.len() as u64);
            lemma_holds_blocks(blocks, packs, out@, points@.len() as u64);
            assert(is_segment(out@, blocks, packs, points@.len() as u64));
        }
        Ok((out, stats))
    }

    /// Reads the header and the index of a segment and checks them.
    pub fn open(data: Vec<u8>) -> (outcome: Result<Segment, Error>)
        ensures
            match outcome {
                Ok(segment) => segment.bytes() == data@ && (opened(data@) matches Ok(index)
                    && index == segment.index()),
                Err(e) => opened(data@) matches Err(fault) && reports(e, fault),
            },
    {
        let ghost b = data@;
        let total: usize = data.len();
        if total < 56 {
            return Err(corruption(0, "segment is too small"));
        }
        proof {
            lemma_pow256_values();
        }
        let d = data.as_slice();
        if read_le(d, 0, 8) != SEGMENT_MAGIC as u128 {
            return Err(corruption(0, "invalid segment magic"));
        }
        if read_le(d, 8, 2) != SEGMENT_VERSION as u128 {
            return Err(corruption(0, "unsupported segment version"));
        }
        if crc32(&d[0..36]) as u128 != read_le(d, 36, 4) {
            return Err(corruption(0, "segment header checksum mismatch"));
        }
        let count: u32 = read_le(d, 12, 4) as u32;
        let points: u64 = read_le(d, 16, 8) as u64;
        let index_offset: u64 = read_le(d, 24, 8) as u64;
        let index_bytes: u64 = read_le(d, 32, 4) as u64;
        if index_offset < 40 || index_offset > total as u64 || total as u64 - index_offset
            != index_bytes {
            return Err(corruption(0, "invalid segment index bounds"));
        }
        if index_bytes < 16 {
            return Err(short_read());
        }
        let at: usize = index_offset as usize;
        if read_le(d, at, 4) != INDEX_MAGIC as u128 {
            return Err(corruption(index_offset, "invalid segment index magic"));
        }
        if read_le(d, at + 4, 2) != INDEX_VERSION as u128 || read_le(d, at + 6, 2)
            != INDEX_ENTRY_BYTES as u128 || read_le(d, at + 8, 4) != count as u128 {
            return Err(corruption(index_offset, "unsupported segment index layout"));
        }
        if index_bytes != 16 + 40 * (count as u64) {
            return Err(corruption(index_offset, "segment index length mismatch"));
        }
        if crc32(&d[at + 16..total]) as u128 != read_le(d, at + 12, 4) {
            return Err(corruption(index_offset, "segment index checksum mismatch"));
        }
        let index: Vec<IndexEntry> = decode_entries(d, at + 16, count as usize);
        if let Err(reason) = validate_index(&index, index_offset, points) {
            return Err(corruption(index_offset, reason));
        }
        let stats = SegmentStats {
            blocks: count,
            points,
            stored_bytes: total as u64,
            logical_point_bytes: logical_point_bytes(points),
        };
        Ok(Segment { data, index, stats })
    }

    /// What the segment holds.
    pub fn stats(&self) -> (stats: SegmentStats)
        ensures
            stats == stats_of(self.bytes()),
    {
        proof {
            use_type_invariant(self);
        }
        self.stats
    }

    /// Reads one series and time range, looking only at indexed blocks that
    /// overlap it.
    pub fn query(&self, series_id: u64, start: i64, end: i64) -> (outcome: Result<
        Vec<Point>,
        Error,
    >)
        ensures
            match outcome {
                Ok(points) => queried(
                    self.bytes(),
                    self.index(),
                    self.index().len(),
                    series_id,
                    start,
                    end,
                ) matches Ok(p) && p == points@,
                Err(e) => queried(
                    self.bytes(),
                    self.index(),
                    self.index().len(),
                    series_id,
                    start,
                    end,
                ) matches Err(fault) && reports(e, fault),
            },
    {
        let ghost b = self.bytes();
        let ghost index = self.index();
        let mut out: Vec<Point> = Vec::new();
        let mut n: usize = 0;
        while n < self.index.len()
            invariant
                b == self.bytes(),
                index == self.index(),
                n <= index.len(),
                queried(b, index, n as nat, series_id, start, end) matches Ok(p) && p == out@,
            decreases index.len() - n,
        {
            let entry = self.index[n];
            if entry.series_id == series_id && entry.max_time >= start && entry.min_time < end {
                proof {
                    use_type_invariant(self);
                    lemma_opened_points(self.data@, n as int);
                }
                match read_block(self.data.as_slice(), entry) {
                    Ok(points) => {
                        keep_range(&mut out, &points, start, end);
                    },
                    Err(e) => {
                        proof {
                            lemma_query_fault(
                                b,
                                index,
                                (n + 1) as nat,
                                index.len(),
                                series_id,
                                start,
                                end,
                            );
                        }
                        return Err(e);
                    },
                }
            }
            n = n + 1;
        }
        Ok(out)
    }
}

proof fn lemma_query_fault(
    b: Seq<u8>,
    index: Seq<IndexEntry>,
    m: nat,
    n: nat,
    series_id: u64,
    start: i64,
    end: i64,
)
    requires
        m <= n,
        queried(b, index, m, series_id, start, end) is Err,
    ensures
        queried(b, index, n, series_id, start, end) == queried(b, index, m, series_id, start, end),
    decreases n,
{
    if m < n {
        lemma_query_fault(b, index, m, (n - 1) as nat, series_id, start, end);
    }
}

fn keep_range(out: &mut Vec<Point>, points: &Vec<Point>, start: i64, end: i64)
    ensures
        final(out)@ == old(out)@ + in_range(points@, start, end),
{
    let mut i: usize = 0;
    assert(points@.take(0) =~= Seq::empty());
    assert(out@ =~= old(out)@ + in_range(points@.take(0), start, end));
    while i < points.len()
        invariant
            i <= points@.len(),
            out@ == old(out)@ + in_range(points@.take(i as int), start, end),
        decreases points@.len() - i,
    {
        let point = points[i];
        if point.valid_time >= start && point.valid_time < end {
            out.push(point);
        }
        proof {
            assert(points@.take(i + 1).drop_last() =~= points@.take(i as int));
            assert(out@ =~= old(out)@ + in_range(points@.take(i + 1), start, end));
        }
        i = i + 1;
    }
    assert(points@.take(points@.len() as int) =~= points@);
}

pub fn read_signed(d: &[u8], at: usize) -> (v: i64)
    requires
        at + 8 <= d@.len(),
    ensures
        v == signed_field(d@, at as int),
{
    proof {
        lemma_pow256_values();
    }
    let bits: u64 = read_le(d, at, 8) as u64;
    proof {
        lemma_i64_from_bits(bits);
    }
    bits as i64
}

fn decode_entries(d: &[u8], at: usize, n: usize) -> (index: Vec<IndexEntry>)
    requires
        at + 40 * n <= d@.len(),
    ensures
        index@ == entries_at(d@, at as int, n as nat),
{
    let total: usize = d.len();
    let mut index: Vec<IndexEntry> = Vec::new();
    let mut i: usize = 0;
    let mut here: usize = at;
    while i < n
        invariant
            i <= n,
            here == at + 40 * i,
            at + 40 * n <= d@.len() == total,
            index@ == entries_at(d@, at as int, i as nat),
        decreases n - i,
    {
        proof {
            lemma_pow256_values();
        }
        index.push(
            IndexEntry {
                series_id: read_le(d, here, 8) as u64,
                min_time: read_signed(d, here + 8),
                max_time: read_signed(d, here + 16),
                offset: read_le(d, here + 24, 8) as u64,
                length: read_le(d, here + 32, 4) as u32,
                points: read_le(d, here + 36, 4) as u32,
            },
        );
        assert(index@ =~= entries_at(d@, at as int, (i + 1) as nat));
        i = i + 1;
        here = here + 40;
    }
    index
}

/// No block of a readable segment holds more points than a block may.
proof fn lemma_opened_points(b: Seq<u8>, i: int)
    requires
        opened(b) matches Ok(index) && 0 <= i < index.len(),
    ensures
        opened(b)->Ok_0[i].points <= MAX_BLOCK_POINTS,
{
    let index = opened(b)->Ok_0;
    let at = field(b, 24, 8) as u64;
    assert(entries_fault(index, index.len(), at) is None);
    if entries_fault(index, (i + 1) as nat, at) is Some {
        lemma_first_entry_fault(index, (i + 1) as nat, index.len(), at);
    }
}

proof fn lemma_first_entry_fault(index: Seq<IndexEntry>, m: nat, n: nat, at: u64)
    requires
        m <= n,
        entries_fault(index, m, at) is Some,
    ensures
        entries_fault(index, n, at) == entries_fault(index, m, at),
    decreases n,
{
    if m < n {
        lemma_first_entry_fault(index, m, (n - 1) as nat, at);
    }
}

fn validate_entry(index: &Vec<IndexEntry>, i: usize, expected: u64, index_offset: u64) -> (outcome:
    Result<(), &'static str>)
    requires
        i < index@.len(),
        expected == expected_offset(index@, i as int),
    ensures
        outcome == match entry_fault(index@, i as int, index_offset) {
            Some(reason) => Err::<(), &'static str>(reason),
            None => Ok(()),
        },
{
    let entry = index[i];
    if entry.points == 0 || entry.points > MAX_BLOCK_POINTS || entry.min_time > entry.max_time
        || entry.offset != expected || entry.offset > index_offset || entry.length as u64
        > index_offset - entry.offset {
        return Err("invalid segment index entry");
    }
    let payload: u64 = (entry.length as u64).saturating_sub(BLOCK_HEADER_BYTES as u64);
    if minimum_encoded_bytes(entry.points as u64) > payload * MAX_LZ4_RATIO {
        return Err("segment index point count exceeds block capacity");
    }
    if i > 0 {
        let previous = index[i - 1];
        if entry.series_id < previous.series_id || (entry.series_id == previous.series_id
            && entry.min_time < previous.min_time) {
            return Err("segment index is not sorted");
        }
    }
    Ok(())
}

fn validate_index(index: &Vec<IndexEntry>, index_offset: u64, points: u64) -> (outcome: Result<
    (),
    &'static str,
>)
    requires
        index@.len() <= u32::MAX,
    ensures
        outcome == match index_fault(index@, index_offset, points) {
            Some(reason) => Err::<(), &'static str>(reason),
            None => Ok(()),
        },
{
    let mut n: usize = 0;
    let mut total: u64 = 0;
    let mut expected: u64 = 40;
    while n < index.len()
        invariant
            n <= index@.len() <= u32::MAX,
            total == counted(index@, n as nat),
            total <= n * 262144,
            expected == expected_offset(index@, n as int),
            entries_fault(index@, n as nat, index_offset) is None,
        decreases index@.len() - n,
    {
        let outcome = validate_entry(index, n, expected, index_offset);
        if outcome.is_err() {
            proof {
                lemma_first_entry_fault(index@, (n + 1) as nat, index@.len(), index_offset);
            }
            return outcome;
        }
        let entry = index[n];
        total = total + entry.points as u64;
        expected = entry.offset + entry.length as u64;
        n = n + 1;
    }
    if total != points || expected != index_offset {
        return Err("segment index coverage or point count mismatch");
    }
    Ok(())
}

fn decode_raw(raw: &[u8], uncompressed: usize, entry: IndexEntry) -> (outcome: Result<
    Vec<Point>,
    Error,
>)
    ensures
        match outcome {
            Ok(points) => raw_points(raw@, uncompressed as nat, entry) matches Ok(p) && p
                == points@,
            Err(e) => raw_points(raw@, uncompressed as nat, entry) matches Err(fault) && reports(
                e,
                fault,
            ),
        },
{
    if raw.len() != uncompressed {
        return Err(corruption(entry.offset, "block uncompressed length mismatch"));
    }
    match decode_columns(raw, entry.series_id, entry.points) {
        Ok(points) => Ok(points),
        Err(reason) => Err(corruption(entry.offset, reason)),
    }
}

fn decode_payload(header: &[u8], payload: &[u8], entry: IndexEntry) -> (outcome: Result<
    Vec<Point>,
    Error,
>)
    requires
        header@.len() == 56,
        field(header@, 20, 4) <= MAX_LZ4_OUTPUT_BYTES,
        payload@.len() <= u32::MAX,
    ensures
        match outcome {
            Ok(points) => payload_points(header@, payload@, entry) matches Ok(p) && p == points@,
            Err(e) => payload_points(header@, payload@, entry) matches Err(fault) && reports(
                e,
                fault,
            ),
        },
{
    proof {
        lemma_pow256_values();
    }
    let uncompressed: usize = read_le(header, 20, 4) as usize;
    if crc32(payload) as u128 != read_le(header, 28, 4) {
        return Err(corruption(entry.offset, "block payload checksum mismatch"));
    }
    let compression: u8 = header[6];
    if compression == COMPRESSION_RAW {
        return decode_raw(payload, uncompressed, entry);
    }
    if compression != COMPRESSION_LZ4 {
        return Err(corruption(entry.offset, "unknown block compression"));
    }
    if payload.len() < 4 {
        return Err(corruption(entry.offset, "LZ4 block is too short"));
    }
    if read_le(payload, 0, 4) != uncompressed as u128 {
        return Err(corruption(entry.offset, "LZ4 size prefix disagrees with block header"));
    }
    let stream: u64 = (payload.len() - 4) as u64;
    if uncompressed as u64 > stream * MAX_LZ4_RATIO {
        return Err(corruption(entry.offset, "block uncompressed length exceeds LZ4 capacity"));
    }
    let block = &payload[4..payload.len()];
    if !has_short_runs(block) {
        return Err(corruption(entry.offset, "LZ4 block has an overlong length"));
    }
    match decompress(block, uncompressed) {
        Ok(raw) => decode_raw(raw.as_slice(), uncompressed, entry),
        Err(text) => {
            let mut reason = "invalid LZ4 block: ".to_owned();
            reason.append(text.as_str());
            Err(Error::Corruption { offset: entry.offset, reason })
        },
    }
}

fn check_block_header(header: &[u8], entry: IndexEntry) -> (outcome: Result<(), Error>)
    requires
        header@.len() == 56,
    ensures
        match outcome {
            Ok(_) => block_header_fault(header@, entry) is None,
            Err(e) => block_header_fault(header@, entry) matches Some(fault) && reports(e, fault),
        },
{
    proof {
        lemma_pow256_values();
    }
    if read_le(header, 0, 4) != BLOCK_MAGIC as u128 {
        return Err(corruption(entry.offset, "invalid block magic"));
    }
    if read_le(header, 4, 2) != BLOCK_VERSION as u128 || header[7] != BLOCK_ENCODING_COLUMN_V1 {
        return Err(corruption(entry.offset, "unsupported block encoding"));
    }
    if crc32(&header[0..48]) as u128 != read_le(header, 48, 4) {
        return Err(corruption(entry.offset, "block header checksum mismatch"));
    }
    let payload_len: u128 = read_le(header, 24, 4);
    if read_le(header, 8, 8) != entry.series_id as u128 || read_le(header, 16, 4)
        != entry.points as u128 || read_signed(header, 32) != entry.min_time || read_signed(
        header,
        40,
    ) != entry.max_time || 56 + payload_len != entry.length as u128 {
        return Err(corruption(entry.offset, "block header disagrees with index"));
    }
    let uncompressed: u64 = read_le(header, 20, 4) as u64;
    if uncompressed < minimum_encoded_bytes(entry.points as u64) || uncompressed
        > maximum_encoded_bytes(entry.points as u64) {
        return Err(corruption(entry.offset, "block uncompressed length is out of bounds"));
    }
    Ok(())
}

/// Reads the block that an index entry describes.
pub fn read_block(data: &[u8], entry: IndexEntry) -> (outcome: Result<Vec<Point>, Error>)
    requires
        entry.points <= MAX_BLOCK_POINTS,
    ensures
        match outcome {
            Ok(points) => block_points(data@, entry) matches Ok(p) && p == points@,
            Err(e) => block_points(data@, entry) matches Err(fault) && reports(e, fault),
        },
{
    let total: usize = data.len();
    if total < 56 || entry.offset > (total - 56) as u64 {
        return Err(short_read());
    }
    let at: usize = entry.offset as usize;
    let header = &data[at..at + 56];
    if let Err(e) = check_block_header(header, entry) {
        return Err(e);
    }
    if entry.length as u64 > (total - at) as u64 {
        return Err(short_read());
    }
    let length: usize = entry.length as usize;
    decode_payload(header, &data[at + 56..at + length], entry)
}

} // verus!
