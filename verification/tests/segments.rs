use crc32fast::hash;
use ftwdb::error::Error;
use ftwdb::model::{FloatBits, Point};
use ftwdb::segment::{
    Segment, SegmentStats, BLOCK_HEADER_BYTES, COMPRESSION_LZ4, INDEX_ENTRY_BYTES,
    INDEX_HEADER_BYTES, MAX_BLOCK_POINTS, SEGMENT_HEADER_BYTES,
};

fn points(count: usize) -> Vec<Point> {
    (0..count)
        .flat_map(|index| {
            [1_u64, 2_u64].map(|series_id| Point {
                series_id,
                valid_time: index as i64 * 1_000_000,
                valid_time_end: index as i64 * 1_000_000,
                knowledge_time: index as i64 * 1_000_000 + 10,
                change_time: index as i64 * 1_000_000 + 20,
                run_id: if index % 10 == 0 { 77 } else { 0 },
                value: FloatBits((series_id as f64 * 100.0 + (index % 50) as f64).to_bits()),
                quality: (index % 4) as u32,
                flags: (index % 2) as u32,
            })
        })
        .collect()
}

fn created(points: &[Point], block_points: usize) -> (Vec<u8>, SegmentStats) {
    match Segment::create(points, block_points) {
        Ok(made) => made,
        Err(error) => panic!("{}", error.message()),
    }
}

fn opened(bytes: Vec<u8>) -> Segment {
    match Segment::open(bytes) {
        Ok(segment) => segment,
        Err(error) => panic!("{}", error.message()),
    }
}

fn is_corrupt(outcome: Result<Vec<Point>, Error>) -> bool {
    matches!(outcome, Err(Error::Corruption { .. }))
}

/// Rewrites the claimed point count of the first block and keeps every checksum
/// consistent.
fn claim_first_block_points(bytes: &mut Vec<u8>, claimed: u32) {
    let index_offset = u64::from_le_bytes(bytes[24..32].try_into().unwrap()) as usize;
    let entry_count =
        u32::from_le_bytes(bytes[index_offset + 8..index_offset + 12].try_into().unwrap()) as usize;
    let entries_start = index_offset + INDEX_HEADER_BYTES;
    let entries_end = entries_start + entry_count * INDEX_ENTRY_BYTES;

    bytes[entries_start + 36..entries_start + 40].copy_from_slice(&claimed.to_le_bytes());
    let block_offset =
        u64::from_le_bytes(bytes[entries_start + 24..entries_start + 32].try_into().unwrap())
            as usize;
    bytes[block_offset + 16..block_offset + 20].copy_from_slice(&claimed.to_le_bytes());
    let block_crc = hash(&bytes[block_offset..block_offset + 48]);
    bytes[block_offset + 48..block_offset + 52].copy_from_slice(&block_crc.to_le_bytes());
    let index_crc = hash(&bytes[entries_start..entries_end]);
    bytes[index_offset + 12..index_offset + 16].copy_from_slice(&index_crc.to_le_bytes());
    let mut total = 0_u64;
    for entry in 0..entry_count {
        let offset = entries_start + entry * INDEX_ENTRY_BYTES;
        total += u64::from(u32::from_le_bytes(bytes[offset + 36..offset + 40].try_into().unwrap()));
    }
    bytes[16..24].copy_from_slice(&total.to_le_bytes());
    let header_crc = hash(&bytes[..36]);
    bytes[36..40].copy_from_slice(&header_crc.to_le_bytes());
}

/// Rewrites the first block's claimed uncompressed length and LZ4 size prefix, and
/// keeps every checksum consistent.
fn tamper_first_block_lz4(bytes: &mut Vec<u8>, claimed_length: Option<u32>, claimed_prefix: u32) {
    let block = SEGMENT_HEADER_BYTES;
    assert_eq!(bytes[block + 6], COMPRESSION_LZ4);
    if let Some(claimed) = claimed_length {
        bytes[block + 20..block + 24].copy_from_slice(&claimed.to_le_bytes());
    }
    let payload_len =
        u32::from_le_bytes(bytes[block + 24..block + 28].try_into().unwrap()) as usize;
    let payload_start = block + BLOCK_HEADER_BYTES;
    bytes[payload_start..payload_start + 4].copy_from_slice(&claimed_prefix.to_le_bytes());
    let payload_crc = hash(&bytes[payload_start..payload_start + payload_len]);
    bytes[block + 28..block + 32].copy_from_slice(&payload_crc.to_le_bytes());
    let header_crc = hash(&bytes[block..block + 48]);
    bytes[block + 48..block + 52].copy_from_slice(&header_crc.to_le_bytes());
}

#[test]
fn compressed_segment_round_trips_and_prunes_ranges() {
    let input = points(10_000);
    let (bytes, stats) = created(&input, 512);
    assert_eq!(stats.points, 20_000);
    assert!(stats.blocks > 2);
    assert!(stats.stored_bytes < stats.logical_point_bytes / 2);

    let segment = opened(bytes);
    assert_eq!(segment.stats(), stats);
    let selected = segment.query(2, 123_000_000, 140_000_000).unwrap();
    let expected: Vec<_> = input
        .into_iter()
        .filter(|point| {
            point.series_id == 2
                && point.valid_time >= 123_000_000
                && point.valid_time < 140_000_000
        })
        .collect();
    assert_eq!(selected, expected);
}

#[test]
fn payload_corruption_is_detected_on_read() {
    let (mut bytes, _) = created(&points(100), 100);
    let payload_offset = SEGMENT_HEADER_BYTES + BLOCK_HEADER_BYTES + 1;
    bytes[payload_offset] = 0xAA;

    let segment = opened(bytes);
    assert!(is_corrupt(segment.query(1, i64::MIN, i64::MAX)));
}

#[test]
fn huge_index_point_count_is_rejected_on_open() {
    let (mut bytes, _) = created(&points(100), 1_000);
    claim_first_block_points(&mut bytes, u32::MAX);
    assert!(matches!(Segment::open(bytes), Err(Error::Corruption { .. })));
}

#[test]
fn block_point_limit_bounds_writer_and_reader_allocations() {
    assert!(matches!(
        Segment::create(&points(10), MAX_BLOCK_POINTS as usize + 1),
        Err(Error::InvalidConfig(_))
    ));

    let (mut bytes, _) = created(&points(100), 1_000);
    claim_first_block_points(&mut bytes, MAX_BLOCK_POINTS + 1);
    assert!(matches!(Segment::open(bytes), Err(Error::Corruption { .. })));
}

#[test]
fn inflated_block_point_count_is_rejected_on_query() {
    let (mut bytes, _) = created(&points(100), 1_000);
    claim_first_block_points(&mut bytes, 1_000);
    let segment = opened(bytes);
    assert!(is_corrupt(segment.query(1, i64::MIN, i64::MAX)));
}

#[test]
fn huge_block_uncompressed_length_is_rejected_on_query() {
    let (mut bytes, _) = created(&points(3_000), 4_096);
    tamper_first_block_lz4(&mut bytes, Some(u32::MAX), u32::MAX);
    let segment = opened(bytes);
    assert!(is_corrupt(segment.query(1, i64::MIN, i64::MAX)));
}

#[test]
fn decompression_bomb_within_point_bounds_is_rejected_on_query() {
    let (mut bytes, _) = created(&points(3_000), 4_096);
    let block = SEGMENT_HEADER_BYTES;
    let payload_len = u32::from_le_bytes(bytes[block + 24..block + 28].try_into().unwrap());
    let claimed_length = payload_len * 255;
    let claimed_points = claimed_length / 64;
    tamper_first_block_lz4(&mut bytes, Some(claimed_length), claimed_length);
    claim_first_block_points(&mut bytes, claimed_points);

    let segment = opened(bytes);
    assert!(matches!(
        segment.query(1, i64::MIN, i64::MAX),
        Err(Error::Corruption { reason, .. }) if reason.contains("exceeds LZ4 capacity")
    ));
}

#[test]
fn lying_lz4_size_prefix_is_rejected_on_query() {
    let (mut bytes, _) = created(&points(3_000), 4_096);
    tamper_first_block_lz4(&mut bytes, None, u32::MAX);
    let segment = opened(bytes);
    assert!(is_corrupt(segment.query(1, i64::MIN, i64::MAX)));
}

#[test]
fn points_in_any_order_are_found_in_time_order() {
    let mut input = points(40);
    input.reverse();
    let (bytes, _) = created(&input, 7);
    let segment = opened(bytes);
    let found = segment.query(1, 0, 5_000_000).unwrap();
    let times: Vec<i64> = found.iter().map(|point| point.valid_time).collect();
    assert_eq!(times, vec![0, 1_000_000, 2_000_000, 3_000_000, 4_000_000]);
    assert_eq!(found[2].value, FloatBits(102.0_f64.to_bits()));
    assert!(segment.query(3, i64::MIN, i64::MAX).unwrap().is_empty());
    assert!(segment.query(1, 5_000_000, 5_000_000).unwrap().is_empty());
}

#[test]
fn empty_segments_hold_nothing() {
    let (bytes, stats) = created(&[], 10);
    assert_eq!(stats.points, 0);
    assert_eq!(stats.blocks, 0);
    assert_eq!(bytes.len(), SEGMENT_HEADER_BYTES + INDEX_HEADER_BYTES);
    assert!(opened(bytes).query(1, i64::MIN, i64::MAX).unwrap().is_empty());
    assert!(matches!(
        Segment::create(&[], 0),
        Err(Error::InvalidConfig("segment block_points must be in 1..=262144"))
    ));
}

#[test]
fn foreign_bytes_are_no_segment() {
    let (mut bytes, _) = created(&points(4), 10);
    bytes[0] ^= 1;
    assert!(Segment::open(bytes).is_err());
    assert!(Segment::open(Vec::new()).is_err());
}
