use crc32fast::hash;
use ftwdb::error::Error;
use ftwdb::model::{FloatBits, Point};
use ftwdb::rollup::{BucketNumbers, FixedGaugeRollup, GaugeBucket};
use ftwdb::rollup_segment::{
    RollupSegment, BUCKET_BYTES, MAX_ROLLUP_BUCKETS, ROLLUP_HEADER_BYTES, ROLLUP_MAGIC,
    ROLLUP_VERSION,
};
use ftwdb::segment::COMPRESSION_LZ4;

fn bits(value: f64) -> FloatBits {
    FloatBits(value.to_bits())
}

fn buckets() -> Vec<GaugeBucket> {
    let points = [
        Point::actual(1, 0, bits(2.0)),
        Point::actual(1, 5_000_000, bits(4.0)),
        Point::actual(1, 10_000_000, bits(8.0)),
    ];
    let rollup = FixedGaugeRollup::build(&points, 5_000_000, 5_000_000).unwrap();
    rollup
        .buckets()
        .iter()
        .map(|parts| {
            let value = f64::from_bits(parts.samples[0].value.0);
            let integral: f64 = parts
                .holds
                .iter()
                .map(|hold| f64::from_bits(hold.value.0) * hold.micros as f64)
                .sum();
            GaugeBucket::from_parts(
                parts,
                BucketNumbers {
                    sum: bits(value),
                    min: Some(bits(value)),
                    max: Some(bits(value)),
                    integral_value_micros: bits(integral),
                },
            )
        })
        .collect()
}

fn opened(bytes: &[u8]) -> RollupSegment {
    match RollupSegment::open(bytes) {
        Ok(segment) => segment,
        Err(error) => panic!("{}", error.message()),
    }
}

#[test]
fn round_trips_closed_aggregate_states() {
    let expected = buckets();
    let (bytes, stats) = RollupSegment::create(&expected).unwrap();
    let segment = opened(&bytes);

    assert_eq!(stats, segment.stats());
    assert_eq!(stats.buckets, 3);
    assert_eq!(stats.min_start, Some(0));
    assert_eq!(stats.max_end, Some(15_000_000));
    assert_eq!(segment.buckets(), &expected);
    assert_eq!(segment.query(5_000_000, 10_000_000), expected[1..2]);
}

/// A rollup segment with a consistent header around an arbitrary LZ4 payload.
fn crafted_lz4_segment(bucket_count: u32, payload: &[u8]) -> Vec<u8> {
    let uncompressed_len = bucket_count * BUCKET_BYTES as u32;
    let mut header = [0_u8; ROLLUP_HEADER_BYTES];
    header[..8].copy_from_slice(&ROLLUP_MAGIC.to_le_bytes());
    header[8..10].copy_from_slice(&ROLLUP_VERSION.to_le_bytes());
    header[10] = COMPRESSION_LZ4;
    header[12..16].copy_from_slice(&bucket_count.to_le_bytes());
    header[16..20].copy_from_slice(&uncompressed_len.to_le_bytes());
    header[20..24].copy_from_slice(&(payload.len() as u32).to_le_bytes());
    header[24..28].copy_from_slice(&hash(payload).to_le_bytes());
    let header_crc = hash(&header[..44]);
    header[44..48].copy_from_slice(&header_crc.to_le_bytes());
    let mut bytes = header.to_vec();
    bytes.extend_from_slice(payload);
    bytes
}

#[test]
fn rejects_decompression_bomb_bucket_count() {
    let mut payload = u32::MAX.to_le_bytes().to_vec();
    payload.extend_from_slice(&[0_u8; 12]);
    assert!(matches!(
        RollupSegment::open(&crafted_lz4_segment(41_000_000, &payload)),
        Err(Error::Corruption { .. })
    ));
}

#[test]
fn rejects_bucket_count_above_memory_limit() {
    let payload = 0_u32.to_le_bytes();
    assert!(matches!(
        RollupSegment::open(&crafted_lz4_segment(MAX_ROLLUP_BUCKETS + 1, &payload)),
        Err(Error::Corruption { .. })
    ));
}

#[test]
fn rejects_lying_lz4_size_prefix() {
    let mut payload = u32::MAX.to_le_bytes().to_vec();
    payload.extend_from_slice(&[0_u8; 12]);
    assert!(matches!(
        RollupSegment::open(&crafted_lz4_segment(1, &payload)),
        Err(Error::Corruption { .. })
    ));
}

#[test]
fn detects_payload_corruption() {
    let (mut bytes, _) = RollupSegment::create(&buckets()).unwrap();
    bytes[52] = 0xA5;
    assert!(RollupSegment::open(&bytes).is_err());
}

#[test]
fn many_alike_buckets_are_stored_compressed() {
    let one = buckets()[0];
    let many: Vec<GaugeBucket> = (0..500)
        .map(|index| GaugeBucket { start: index * 5_000_000, end: (index + 1) * 5_000_000, ..one })
        .collect();
    let (bytes, stats) = RollupSegment::create(&many).unwrap();
    assert_eq!(bytes[10], COMPRESSION_LZ4);
    assert_eq!(stats.logical_bytes, 500 * BUCKET_BYTES as u64);
    assert!(stats.stored_bytes < stats.logical_bytes);
    assert_eq!(opened(&bytes).buckets(), &many);
}

#[test]
fn an_empty_rollup_segment_has_no_span() {
    let (bytes, stats) = RollupSegment::create(&[]).unwrap();
    assert_eq!(stats.min_start, None);
    assert_eq!(stats.max_end, None);
    assert!(opened(&bytes).query(i64::MIN, i64::MAX).is_empty());
}
