//! Immutable, checksummed files of closed gauge aggregate states.
use crate::bytes::{put_bytes, read_le};
#[allow(unused_imports)]
use crate::bytes::{
    bits_of_i64, from_le, i64_of_bits, le, lemma_i64_bits, lemma_i64_from_bits, lemma_le_len,
    lemma_le_round_trip, lemma_pow256_values, pow256,
};
use crate::checksum::crc32;
#[allow(unused_imports)]
use crate::checksum::crc32_of;
use crate::error::{corruption, Error};
#[allow(unused_imports)]
use crate::error::{corrupt_at, invalid_model};
use crate::fields::put_fields;
#[allow(unused_imports)]
use crate::fields::{field, fields_fit, lemma_fields, lemma_packed_len, offset_of, packed};
use crate::lz4::{compress, decompress, has_short_runs};
#[allow(unused_imports)]
use crate::lz4::{is_pack, lz4_content, short_runs, MAX_LZ4_OUTPUT_BYTES};
use crate::model::FloatBits;
use crate::rollup::{GaugeBucket, Sample};
use crate::segment::read_signed;
#[allow(unused_imports)]
use crate::segment::{corrupt, lemma_byte, reports, signed_field, Fault};
use vstd::prelude::*;
use vstd::string::*;

verus! {

/// "WROL0001" as a number.
pub const ROLLUP_MAGIC: u64 = 0x3130_3030_4c4f_5257;

pub const ROLLUP_VERSION: u16 = 1;

pub const ROLLUP_HEADER_BYTES: usize = 48;

pub const BUCKET_BYTES: usize = 104;

/// A fixed shard cap keeps both the decompressed bytes and the decoded buckets
/// bounded even for a valid, maximally compressed payload.
pub const MAX_ROLLUP_BUCKETS: u32 = 262144;

#[derive(Clone, Copy, Debug, PartialEq, Eq)]
pub struct RollupSegmentStats {
    pub buckets: u32,
    pub stored_bytes: u64,
    pub logical_bytes: u64,
    pub min_start: Option<i64>,
    pub max_end: Option<i64>,
}

pub open spec fn float_or_zero(v: Option<FloatBits>) -> u128 {
    match v {
        Some(bits) => bits.0 as u128,
        None => 0,
    }
}

pub open spec fn sample_time(v: Option<Sample>) -> u128 {
    match v {
        Some(sample) => bits_of_i64(sample.timestamp) as u128,
        None => 0,
    }
}

pub open spec fn sample_value(v: Option<Sample>) -> u128 {
    match v {
        Some(sample) => sample.value.0 as u128,
        None => 0,
    }
}

/// Which optional parts a bucket has, one bit each.
pub open spec fn presence(bucket: GaugeBucket) -> u8 {
    ((if bucket.min is Some {
        1int
    } else {
        0
    }) + (if bucket.max is Some {
        2int
    } else {
        0
    }) + (if bucket.first is Some {
        4int
    } else {
        0
    }) + (if bucket.last is Some {
        8int
    } else {
        0
    })) as u8
}

/// The fields of a stored bucket.
pub open spec fn bucket_fields(bucket: GaugeBucket) -> Seq<(u128, usize)> {
    seq![
        (bits_of_i64(bucket.start) as u128, 8usize),
        (bits_of_i64(bucket.end) as u128, 8usize),
        (bucket.count as u128, 8usize),
        (bucket.sum.0 as u128, 8usize),
        (float_or_zero(bucket.min), 8usize),
        (float_or_zero(bucket.max), 8usize),
        (sample_time(bucket.first), 8usize),
        (sample_value(bucket.first), 8usize),
        (sample_time(bucket.last), 8usize),
        (sample_value(bucket.last), 8usize),
        (bucket.integral_value_micros.0 as u128, 8usize),
        (bits_of_i64(bucket.covered_micros) as u128, 8usize),
        (presence(bucket) as u128, 1usize),
        (0u128, 7usize),
    ]
}

/// The bytes of the first `n` buckets.
pub open spec fn buckets_bytes(buckets: Seq<GaugeBucket>, n: nat) -> Seq<u8>
    decreases n,
{
    if n == 0 {
        Seq::empty()
    } else {
        buckets_bytes(buckets, (n - 1) as nat) + packed(bucket_fields(buckets[n - 1]))
    }
}

pub open spec fn float_at(b: Seq<u8>, at: int) -> FloatBits {
    FloatBits(field(b, at, 8) as u64)
}

pub open spec fn sample_at(b: Seq<u8>, at: int) -> Sample {
    Sample { timestamp: signed_field(b, at), value: float_at(b, at + 8) }
}

/// Whether bit `k` of a byte is set.
pub open spec fn bit(byte: u8, weight: u8) -> bool {
    (byte / weight) % 2 == 1
}

/// The bucket in the 104 bytes at `at`.
pub open spec fn bucket_at(b: Seq<u8>, at: int) -> GaugeBucket {
    let marks = b[at + 96];
    GaugeBucket {
        start: signed_field(b, at),
        end: signed_field(b, at + 8),
        count: field(b, at + 16, 8) as u64,
        sum: float_at(b, at + 24),
        min: if bit(marks, 1) {
            Some(float_at(b, at + 32))
        } else {
            None
        },
        max: if bit(marks, 2) {
            Some(float_at(b, at + 40))
        } else {
            None
        },
        first: if bit(marks, 4) {
            Some(sample_at(b, at + 48))
        } else {
            None
        },
        last: if bit(marks, 8) {
            Some(sample_at(b, at + 64))
        } else {
            None
        },
        integral_value_micros: float_at(b, at + 80),
        covered_micros: signed_field(b, at + 88),
    }
}

pub open spec fn buckets_at(b: Seq<u8>, n: nat) -> Seq<GaugeBucket> {
    Seq::new(n, |i: int| bucket_at(b, 104 * i))
}

/// The rule that bucket `i` breaks, if it breaks one.
pub open spec fn bucket_fault(buckets: Seq<GaugeBucket>, i: int) -> Option<&'static str> {
    let bucket = buckets[i];
    if bucket.end <= bucket.start || bucket.covered_micros < 0 {
        Some("invalid bucket bounds")
    } else if i > 0 && buckets[i - 1].end > bucket.start {
        Some("rollup buckets overlap or are unsorted")
    } else if (bucket.count == 0) != (bucket.first is None && bucket.last is None)
        || bucket.min is Some != bucket.max is Some || bucket.first is Some
        != bucket.last is Some {
        Some("inconsistent rollup aggregate presence")
    } else if bucket.covered_micros > bucket.end - bucket.start {
        Some("rollup coverage exceeds bucket duration")
    } else {
        None
    }
}

/// The fault of the first of `n` buckets that has one, in buckets that are stored
/// from `offset` on.
pub open spec fn buckets_fault(buckets: Seq<GaugeBucket>, n: nat, offset: u64) -> Option<Fault>
    decreases n,
{
    if n == 0 {
        None
    } else if buckets_fault(buckets, (n - 1) as nat, offset) is Some {
        buckets_fault(buckets, (n - 1) as nat, offset)
    } else {
        match bucket_fault(buckets, n - 1) {
            Some(reason) => Some(corrupt((offset + (n - 1) * 104) as u64, reason)),
            None => None,
        }
    }
}

/// How buckets with the LZ4 block `pack` are stored: compressed where that makes
/// them shorter and can be read again.
pub open spec fn stored_buckets(buckets: Seq<GaugeBucket>, pack: Seq<u8>) -> (u8, Seq<u8>) {
    let raw = buckets_bytes(buckets, buckets.len());
    let compressed = le(raw.len(), 4) + pack;
    if compressed.len() < raw.len() && short_runs(pack) {
        (1, compressed)
    } else {
        (0, raw)
    }
}

pub open spec fn first_start(buckets: Seq<GaugeBucket>) -> i64 {
    if buckets.len() == 0 {
        0
    } else {
        buckets[0].start
    }
}

pub open spec fn last_end(buckets: Seq<GaugeBucket>) -> i64 {
    if buckets.len() == 0 {
        0
    } else {
        buckets.last().end
    }
}

pub open spec fn rollup_fields(buckets: Seq<GaugeBucket>, pack: Seq<u8>) -> Seq<(u128, usize)> {
    let (compression, payload) = stored_buckets(buckets, pack);
    seq![
        (ROLLUP_MAGIC as u128, 8usize),
        (ROLLUP_VERSION as u128, 2usize),
        (compression as u128, 1usize),
        (0u128, 1usize),
        (buckets.len() as u128, 4usize),
        ((104 * buckets.len()) as u128, 4usize),
        (payload.len() as u128, 4usize),
        (crc32_of(payload) as u128, 4usize),
        (bits_of_i64(first_start(buckets)) as u128, 8usize),
        (bits_of_i64(last_end(buckets)) as u128, 8usize),
    ]
}

/// The bytes of a rollup segment.
pub open spec fn rollup_bytes(buckets: Seq<GaugeBucket>, pack: Seq<u8>) -> Seq<u8> {
    let fields = rollup_fields(buckets, pack);
    packed(fields) + packed(seq![(crc32_of(packed(fields)) as u128, 4usize)]) + stored_buckets(
        buckets,
        pack,
    ).1
}

/// Whether `b` is a rollup segment of the buckets, with the LZ4 block `pack`.
pub open spec fn is_rollup(b: Seq<u8>, buckets: Seq<GaugeBucket>, pack: Seq<u8>) -> bool {
    &&& is_pack(buckets_bytes(buckets, buckets.len()), pack)
    &&& b == rollup_bytes(buckets, pack)
}

pub open spec fn rollup_stats(buckets: Seq<GaugeBucket>, stored: nat) -> RollupSegmentStats {
    RollupSegmentStats {
        buckets: buckets.len() as u32,
        stored_bytes: stored as u64,
        logical_bytes: (104 * buckets.len()) as u64,
        min_start: if buckets.len() > 0 {
            Some(buckets[0].start)
        } else {
            None
        },
        max_end: if buckets.len() > 0 {
            Some(buckets.last().end)
        } else {
            None
        },
    }
}

/// The uncompressed buckets of a payload.
pub open spec fn unpacked(compression: u8, payload: Seq<u8>, size: nat) -> Result<Seq<u8>, Fault> {
    if compression == 0 {
        Ok(payload)
    } else if compression == 1 {
        if size > payload.len() * 255 {
            Err(corrupt(0, "rollup uncompressed length exceeds LZ4 capacity"))
        } else if payload.len() < 4 {
            Err(corrupt(48, "LZ4 rollup payload is too short"))
        } else if field(payload, 0, 4) != size {
            Err(corrupt(48, "LZ4 size prefix disagrees with rollup header"))
        } else if !short_runs(payload.subrange(4, payload.len() as int)) {
            Err(corrupt(48, "LZ4 rollup payload has an overlong length"))
        } else {
            match lz4_content(payload.subrange(4, payload.len() as int), size) {
                Ok(raw) => Ok(raw),
                Err(text) => Err(
                    Fault::Corrupt { offset: 48, reason: "invalid LZ4 rollup payload: "@ + text },
                ),
            }
        }
    } else {
        Err(corrupt(0, "unknown rollup compression"))
    }
}

/// The buckets of a rollup segment, or the first thing that is wrong with it.
pub open spec fn rollup_opened(b: Seq<u8>) -> Result<Seq<GaugeBucket>, Fault> {
    let count = field(b, 12, 4);
    let size = field(b, 16, 4);
    let stored = field(b, 20, 4);
    let payload = b.subrange(48, b.len() as int);
    if b.len() < 48 {
        Err(corrupt(0, "rollup segment is too small"))
    } else if field(b, 0, 8) != ROLLUP_MAGIC {
        Err(corrupt(0, "invalid rollup segment magic"))
    } else if field(b, 8, 2) != ROLLUP_VERSION {
        Err(corrupt(0, "unsupported rollup segment version"))
    } else if crc32_of(b.subrange(0, 44)) != field(b, 44, 4) {
        Err(corrupt(0, "rollup segment header checksum mismatch"))
    } else if count > MAX_ROLLUP_BUCKETS {
        Err(corrupt(0, "rollup bucket count exceeds implementation limit"))
    } else if size != count * 104 || b.len() != 48 + stored {
        Err(corrupt(0, "invalid rollup segment lengths"))
    } else if crc32_of(payload) != field(b, 24, 4) {
        Err(corrupt(48, "rollup payload checksum mismatch"))
    } else {
        match unpacked(b[10], payload, size) {
            Err(e) => Err(e),
            Ok(raw) => {
                let buckets = buckets_at(raw, count);
                if raw.len() != size {
                    Err(corrupt(48, "rollup decoded length mismatch"))
                } else if buckets_fault(buckets, count, 48) is Some {
                    Err(buckets_fault(buckets, count, 48)->0)
                } else if first_start(buckets) != signed_field(b, 28) || last_end(buckets)
                    != signed_field(b, 36) {
                    Err(corrupt(0, "rollup header bounds mismatch"))
                } else {
                    Ok(buckets)
                }
            },
        }
    }
}

/// The buckets that overlap `start..end`.
pub open spec fn overlapping(buckets: Seq<GaugeBucket>, start: i64, end: i64) -> Seq<GaugeBucket>
    decreases buckets.len(),
{
    if buckets.len() == 0 {
        Seq::empty()
    } else {
        let front = overlapping(buckets.drop_last(), start, end);
        let last = buckets.last();
        if last.end > start && last.start < end {
            front.push(last)
        } else {
            front
        }
    }
}

// Writing.

fn float_bits(v: Option<FloatBits>) -> (bits: u128)
    ensures
        bits == float_or_zero(v),
{
    match v {
        Some(v) => v.0 as u128,
        None => 0,
    }
}

fn time_bits(v: Option<Sample>) -> (bits: u128)
    ensures
        bits == sample_time(v),
{
    match v {
        Some(sample) => {
            proof {
                lemma_i64_bits(sample.timestamp);
            }
            sample.timestamp as u64 as u128
        },
        None => 0,
    }
}

fn value_bits(v: Option<Sample>) -> (bits: u128)
    ensures
        bits == sample_value(v),
{
    match v {
        Some(sample) => sample.value.0 as u128,
        None => 0,
    }
}

fn encode_bucket(bucket: &GaugeBucket, out: &mut Vec<u8>)
    ensures
        final(out)@ == old(out)@ + packed(bucket_fields(*bucket)),
{
    proof {
        lemma_i64_bits(bucket.start);
        lemma_i64_bits(bucket.end);
        lemma_i64_bits(bucket.covered_micros);
    }
    let marks: u8 = (if bucket.min.is_some() {
        1u8
    } else {
        0
    }) + (if bucket.max.is_some() {
        2u8
    } else {
        0
    }) + (if bucket.first.is_some() {
        4u8
    } else {
        0
    }) + (if bucket.last.is_some() {
        8u8
    } else {
        0
    });
    let fields: [(u128, usize); 14] = [
        (bucket.start as u64 as u128, 8),
        (bucket.end as u64 as u128, 8),
        (bucket.count as u128, 8),
        (bucket.sum.0 as u128, 8),
        (float_bits(bucket.min), 8),
        (float_bits(bucket.max), 8),
        (time_bits(bucket.first), 8),
        (value_bits(bucket.first), 8),
        (time_bits(bucket.last), 8),
        (value_bits(bucket.last), 8),
        (bucket.integral_value_micros.0 as u128, 8),
        (bucket.covered_micros as u64 as u128, 8),
        (marks as u128, 1),
        (0, 7),
    ];
    assert(fields@ =~= bucket_fields(*bucket));
    put_fields(out, fields.as_slice());
}

proof fn lemma_bucket_len(bucket: GaugeBucket)
    ensures
        packed(bucket_fields(bucket)).len() == 104,
{
    lemma_packed_len(bucket_fields(bucket), 14);
    reveal_with_fuel(offset_of, 15);
}

proof fn lemma_buckets_len(buckets: Seq<GaugeBucket>, n: nat)
    requires
        n <= buckets.len(),
    ensures
        buckets_bytes(buckets, n).len() == 104 * n,
    decreases n,
{
    if n > 0 {
        lemma_buckets_len(buckets, (n - 1) as nat);
        lemma_bucket_len(buckets[n - 1]);
    }
}

proof fn lemma_buckets_prefix(buckets: Seq<GaugeBucket>, n: nat)
    requires
        n <= buckets.len(),
    ensures
        buckets_bytes(buckets, n).len() <= buckets_bytes(buckets, buckets.len()).len(),
        buckets_bytes(buckets, buckets.len()).subrange(0, buckets_bytes(buckets, n).len() as int)
            == buckets_bytes(buckets, n),
    decreases buckets.len() - n,
{
    let all = buckets_bytes(buckets, buckets.len());
    if n < buckets.len() {
        lemma_buckets_prefix(buckets, n + 1);
        let longer = buckets_bytes(buckets, n + 1);
        let shorter = buckets_bytes(buckets, n);
        assert(longer.subrange(0, shorter.len() as int) =~= shorter);
        assert(all.subrange(0, longer.len() as int).subrange(0, shorter.len() as int)
            =~= all.subrange(0, shorter.len() as int));
    } else {
        assert(all.subrange(0, all.len() as int) =~= all);
    }
}

/// The fields of a bucket fit their widths.
proof fn lemma_bucket_fields_fit(bucket: GaugeBucket)
    ensures
        fields_fit(bucket_fields(bucket)),
{
    lemma_pow256_values();
    lemma_i64_bits(bucket.start);
    lemma_i64_bits(bucket.end);
    lemma_i64_bits(bucket.covered_micros);
    if bucket.first is Some {
        lemma_i64_bits(bucket.first->0.timestamp);
    }
    if bucket.last is Some {
        lemma_i64_bits(bucket.last->0.timestamp);
    }
    crate::bytes::lemma_pow256_monotonic(0, 7);
}

/// Each field of a bucket is read back where the bucket stands.
#[verifier::spinoff_prover]
proof fn lemma_bucket_fields(b: Seq<u8>, at: int, bucket: GaugeBucket)
    requires
        0 <= at,
        at + 104 <= b.len(),
        b.subrange(at, at + 104) == packed(bucket_fields(bucket)),
    ensures
        field(b, at, 8) == bits_of_i64(bucket.start) as u128,
        field(b, at + 8, 8) == bits_of_i64(bucket.end) as u128,
        field(b, at + 16, 8) == bucket.count,
        field(b, at + 24, 8) == bucket.sum.0,
        field(b, at + 32, 8) == float_or_zero(bucket.min),
        field(b, at + 40, 8) == float_or_zero(bucket.max),
        field(b, at + 48, 8) == sample_time(bucket.first),
        field(b, at + 56, 8) == sample_value(bucket.first),
        field(b, at + 64, 8) == sample_time(bucket.last),
        field(b, at + 72, 8) == sample_value(bucket.last),
        field(b, at + 80, 8) == bucket.integral_value_micros.0,
        field(b, at + 88, 8) == bits_of_i64(bucket.covered_micros) as u128,
        field(b, at + 96, 1) == presence(bucket),
{
    let fields = bucket_fields(bucket);
    lemma_bucket_len(bucket);
    lemma_bucket_fields_fit(bucket);
    lemma_fields(fields, b, at);
    reveal_with_fuel(offset_of, 15);
    let f0 = fields[0];
    let f1 = fields[1];
    let f2 = fields[2];
    let f3 = fields[3];
    let f4 = fields[4];
    let f5 = fields[5];
    let f6 = fields[6];
    let f7 = fields[7];
    let f8 = fields[8];
    let f9 = fields[9];
    let f10 = fields[10];
    let f11 = fields[11];
    let f12 = fields[12];
}

/// Each bit of the presence byte tells of its part.
proof fn lemma_presence(bucket: GaugeBucket)
    ensures
        bit(presence(bucket), 1) == (bucket.min is Some),
        bit(presence(bucket), 2) == (bucket.max is Some),
        bit(presence(bucket), 4) == (bucket.first is Some),
        bit(presence(bucket), 8) == (bucket.last is Some),
{
}

/// A bucket is read back where it stands.
proof fn lemma_bucket_read_back(buckets: Seq<GaugeBucket>, i: int)
    requires
        0 <= i < buckets.len(),
    ensures
        bucket_at(buckets_bytes(buckets, buckets.len()), 104 * i) == buckets[i],
{
    let all = buckets_bytes(buckets, buckets.len());
    let bucket = buckets[i];
    let fields = bucket_fields(bucket);
    lemma_buckets_len(buckets, i as nat);
    lemma_buckets_len(buckets, (i + 1) as nat);
    lemma_buckets_len(buckets, buckets.len());
    lemma_buckets_prefix(buckets, (i + 1) as nat);
    lemma_bucket_len(bucket);
    let longer = buckets_bytes(buckets, (i + 1) as nat);
    let here = 104 * i;
    assert(longer.subrange(here, here + 104) =~= packed(fields));
    assert(all.subrange(0, here + 104).subrange(here, here + 104) =~= all.subrange(
        here,
        here + 104,
    ));
    lemma_bucket_fields(all, here, bucket);
    lemma_presence(bucket);
    lemma_byte(all, here + 96);
    lemma_i64_bits(bucket.start);
    lemma_i64_bits(bucket.end);
    lemma_i64_bits(bucket.covered_micros);
    lemma_pow256_values();
    if bucket.first is Some {
        lemma_i64_bits(bucket.first->0.timestamp);
    }
    if bucket.last is Some {
        lemma_i64_bits(bucket.last->0.timestamp);
    }
}

proof fn lemma_first_bucket_fault(buckets: Seq<GaugeBucket>, m: nat, n: nat, offset: u64)
    requires
        m <= n,
        buckets_fault(buckets, m, offset) is Some,
    ensures
        buckets_fault(buckets, n, offset) == buckets_fault(buckets, m, offset),
    decreases n,
{
    if m < n {
        lemma_first_bucket_fault(buckets, m, (n - 1) as nat, offset);
    }
}

proof fn lemma_fault_offset(buckets: Seq<GaugeBucket>, n: nat, a: u64, b: u64)
    ensures
        buckets_fault(buckets, n, a) is None <==> buckets_fault(buckets, n, b) is None,
    decreases n,
{
    if n > 0 {
        lemma_fault_offset(buckets, (n - 1) as nat, a, b);
    }
}

fn validate_bucket(buckets: &[GaugeBucket], i: usize) -> (outcome: Result<(), &'static str>)
    requires
        i < buckets@.len(),
    ensures
        outcome == match bucket_fault(buckets@, i as int) {
            Some(reason) => Err::<(), &'static str>(reason),
            None => Ok(()),
        },
{
    let bucket = &buckets[i];
    if bucket.end <= bucket.start || bucket.covered_micros < 0 {
        return Err("invalid bucket bounds");
    }
    if i > 0 && buckets[i - 1].end > bucket.start {
        return Err("rollup buckets overlap or are unsorted");
    }
    if (bucket.count == 0) != (bucket.first.is_none() && bucket.last.is_none())
        || bucket.min.is_some() != bucket.max.is_some() || bucket.first.is_some()
        != bucket.last.is_some() {
        return Err("inconsistent rollup aggregate presence");
    }
    if bucket.covered_micros as i128 > bucket.end as i128 - bucket.start as i128 {
        return Err("rollup coverage exceeds bucket duration");
    }
    Ok(())
}

fn validate_buckets(buckets: &[GaugeBucket], offset: u64) -> (outcome: Result<(), Error>)
    requires
        buckets@.len() <= MAX_ROLLUP_BUCKETS,
        offset <= 48,
    ensures
        match outcome {
            Ok(_) => buckets_fault(buckets@, buckets@.len(), offset) is None,
            Err(e) => buckets_fault(buckets@, buckets@.len(), offset) matches Some(fault)
                && reports(e, fault),
        },
{
    let mut n: usize = 0;
    while n < buckets.len()
        invariant
            n <= buckets@.len() <= MAX_ROLLUP_BUCKETS,
            offset <= 48,
            buckets_fault(buckets@, n as nat, offset) is None,
        decreases buckets@.len() - n,
    {
        if let Err(reason) = validate_bucket(buckets, n) {
            proof {
                lemma_first_bucket_fault(buckets@, (n + 1) as nat, buckets@.len(), offset);
            }
            return Err(corruption(offset + n as u64 * 104, reason));
        }
        n = n + 1;
    }
    Ok(())
}

/// An immutable file of closed gauge aggregate states, read into memory.
pub struct RollupSegment {
    buckets: Vec<GaugeBucket>,
    stats: RollupSegmentStats,
}

impl RollupSegment {
    /// The buckets, in order.
    pub closed spec fn content(&self) -> Seq<GaugeBucket> {
        self.buckets@
    }

    /// The numbers that `stats` gives.
    pub closed spec fn numbers(&self) -> RollupSegmentStats {
        self.stats
    }

    /// Makes a segment of buckets that ascend and do not overlap.
    pub fn create(buckets: &[GaugeBucket]) -> (outcome: Result<
        (Vec<u8>, RollupSegmentStats),
        Error,
    >)
        ensures
            match outcome {
                Ok((bytes, stats)) => {
                    &&& buckets@.len() <= MAX_ROLLUP_BUCKETS
                    &&& buckets_fault(buckets@, buckets@.len(), 0) is None
                    &&& exists|pack: Seq<u8>| #[trigger] is_rollup(bytes@, buckets@, pack)
                    &&& stats == rollup_stats(buckets@, bytes@.len())
                    &&& rollup_opened(bytes@) matches Ok(read)
                    &&& read == buckets@
                },
                Err(e) => if buckets@.len() > MAX_ROLLUP_BUCKETS {
                    invalid_model(e, "rollup segment exceeds 262144 buckets"@)
                } else {
                    buckets_fault(buckets@, buckets@.len(), 0) matches Some(fault) && reports(
                        e,
                        fault,
                    )
                },
            },
    {
        if buckets.len() > MAX_ROLLUP_BUCKETS as usize {
            return Err(Error::InvalidModel("rollup segment exceeds 262144 buckets".to_owned()));
        }
        if let Err(e) = validate_buckets(buckets, 0) {
            return Err(e);
        }
        let count: usize = buckets.len();
        let mut raw: Vec<u8> = Vec::new();
        let mut n: usize = 0;
        while n < count
            invariant
                n <= count == buckets@.len(),
                raw@ == buckets_bytes(buckets@, n as nat),
            decreases count - n,
        {
            encode_bucket(&buckets[n], &mut raw);
            n = n + 1;
        }
        proof {
            lemma_buckets_len(buckets@, buckets@.len());
            lemma_le_len(raw@.len(), 4);
        }
        let ghost raw_bytes = raw@;
        let compressed: Vec<u8> = compress(raw.as_slice());
        let ghost pack = compressed@.subrange(4, compressed@.len() as int);
        assert(compressed@ =~= le(raw@.len(), 4) + pack);
        let readable: bool = has_short_runs(&compressed.as_slice()[4..compressed.len()]);
        let (compression, payload) = if compressed.len() < raw.len() && readable {
            (1u8, compressed)
        } else {
            (0u8, raw)
        };
        let payload_crc: u32 = crc32(payload.as_slice());
        let min_start: i64 = if count > 0 {
            buckets[0].start
        } else {
            0
        };
        let max_end: i64 = if count > 0 {
            buckets[count - 1].end
        } else {
            0
        };
        proof {
            lemma_i64_bits(min_start);
            lemma_i64_bits(max_end);
        }
        let fields: [(u128, usize); 10] = [
            (ROLLUP_MAGIC as u128, 8),
            (ROLLUP_VERSION as u128, 2),
            (compression as u128, 1),
            (0, 1),
            (count as u128, 4),
            ((104 * count) as u128, 4),
            (payload.len() as u128, 4),
            (payload_crc as u128, 4),
            (min_start as u64 as u128, 8),
            (max_end as u64 as u128, 8),
        ];
        assert(fields@ =~= rollup_fields(buckets@, pack));
        let mut out: Vec<u8> = Vec::new();
        put_fields(&mut out, fields.as_slice());
        assert(out@ =~= packed(rollup_fields(buckets@, pack)));
        let sum: u32 = crc32(out.as_slice());
        let tail: [(u128, usize); 1] = [(sum as u128, 4)];
        assert(tail@ =~= seq![(sum as u128, 4usize)]);
        put_fields(&mut out, tail.as_slice());
        put_bytes(&mut out, payload.as_slice());
        let stats = RollupSegmentStats {
            buckets: count as u32,
            stored_bytes: out.len() as u64,
            logical_bytes: (104 * count) as u64,
            min_start: if count > 0 {
                Some(min_start)
            } else {
                None
            },
            max_end: if count > 0 {
                Some(max_end)
            } else {
                None
            },
        };
        proof {
            assert(out@ =~= rollup_bytes(buckets@, pack));
            lemma_rollup_read_back(buckets@, pack, out@);
            assert(is_rollup(out@, buckets@, pack));
        }
        Ok((out, stats))
    }

    /// Reads a segment and checks it.
    pub fn open(data: &[u8]) -> (outcome: Result<RollupSegment, Error>)
        ensures
            match outcome {
                Ok(segment) => {
                    &&& rollup_opened(data@) matches Ok(buckets)
                    &&& buckets == segment.content()
                    &&& segment.numbers() == rollup_stats(buckets, data@.len())
                },
                Err(e) => rollup_opened(data@) matches Err(fault) && reports(e, fault),
            },
    {
        let total: usize = data.len();
        if total < 48 {
            return Err(corruption(0, "rollup segment is too small"));
        }
        proof {
            lemma_pow256_values();
        }
        if read_le(data, 0, 8) != ROLLUP_MAGIC as u128 {
            return Err(corruption(0, "invalid rollup segment magic"));
        }
        if read_le(data, 8, 2) != ROLLUP_VERSION as u128 {
            return Err(corruption(0, "unsupported rollup segment version"));
        }
        if crc32(&data[0..44]) as u128 != read_le(data, 44, 4) {
            return Err(corruption(0, "rollup segment header checksum mismatch"));
        }
        let count: u32 = read_le(data, 12, 4) as u32;
        let size: u64 = read_le(data, 16, 4) as u64;
        let stored: u64 = read_le(data, 20, 4) as u64;
        if count > MAX_ROLLUP_BUCKETS {
            return Err(corruption(0, "rollup bucket count exceeds implementation limit"));
        }
        if size != count as u64 * 104 || total as u64 != 48 + stored {
            return Err(corruption(0, "invalid rollup segment lengths"));
        }
        let payload = &data[48..total];
        if crc32(payload) as u128 != read_le(data, 24, 4) {
            return Err(corruption(48, "rollup payload checksum mismatch"));
        }
        let raw: Vec<u8> = match unpack(data[10], payload, size as usize) {
            Ok(raw) => raw,
            Err(e) => {
                return Err(e);
            },
        };
        if raw.len() != size as usize {
            return Err(corruption(48, "rollup decoded length mismatch"));
        }
        let buckets: Vec<GaugeBucket> = decode_buckets(raw.as_slice(), count as usize);
        if let Err(e) = validate_buckets(buckets.as_slice(), 48) {
            return Err(e);
        }
        let min_start: i64 = if count > 0 {
            buckets[0].start
        } else {
            0
        };
        let max_end: i64 = if count > 0 {
            buckets[count as usize - 1].end
        } else {
            0
        };
        if min_start != read_signed(data, 28) || max_end != read_signed(data, 36) {
            return Err(corruption(0, "rollup header bounds mismatch"));
        }
        let stats = RollupSegmentStats {
            buckets: count,
            stored_bytes: total as u64,
            logical_bytes: size,
            min_start: if count > 0 {
                Some(min_start)
            } else {
                None
            },
            max_end: if count > 0 {
                Some(max_end)
            } else {
                None
            },
        };
        Ok(RollupSegment { buckets, stats })
    }

    /// What the segment holds.
    pub fn stats(&self) -> (stats: RollupSegmentStats)
        ensures
            stats == self.numbers(),
    {
        self.stats
    }

    /// The buckets, in order.
    pub fn buckets(&self) -> (buckets: &Vec<GaugeBucket>)
        ensures
            buckets@ == self.content(),
    {
        &self.buckets
    }

    /// The buckets that overlap a time range.
    pub fn query(&self, start: i64, end: i64) -> (found: Vec<GaugeBucket>)
        ensures
            found@ == overlapping(self.content(), start, end),
    {
        select_overlapping(&self.buckets, start, end)
    }
}

/// The buckets that overlap a time range.
pub fn select_overlapping(buckets: &Vec<GaugeBucket>, start: i64, end: i64) -> (found: Vec<
    GaugeBucket,
>)
    ensures
        found@ == overlapping(buckets@, start, end),
{
    let mut found: Vec<GaugeBucket> = Vec::new();
    let mut i: usize = 0;
    while i < buckets.len()
        invariant
            i <= buckets@.len(),
            found@ == overlapping(buckets@.take(i as int), start, end),
        decreases buckets@.len() - i,
    {
        let bucket = buckets[i];
        if bucket.end > start && bucket.start < end {
            found.push(bucket);
        }
        assert(buckets@.take(i + 1).drop_last() =~= buckets@.take(i as int));
        i = i + 1;
    }
    assert(buckets@.take(buckets@.len() as int) =~= buckets@);
    found
}

fn unpack(compression: u8, payload: &[u8], size: usize) -> (outcome: Result<Vec<u8>, Error>)
    requires
        payload@.len() <= u32::MAX,
        size <= MAX_LZ4_OUTPUT_BYTES,
    ensures
        match outcome {
            Ok(raw) => unpacked(compression, payload@, size as nat) matches Ok(r) && r == raw@,
            Err(e) => unpacked(compression, payload@, size as nat) matches Err(fault) && reports(
                e,
                fault,
            ),
        },
{
    if compression == 0 {
        let mut raw: Vec<u8> = Vec::new();
        put_bytes(&mut raw, payload);
        assert(raw@ =~= payload@);
        return Ok(raw);
    }
    if compression != 1 {
        return Err(corruption(0, "unknown rollup compression"));
    }
    if size as u64 > payload.len() as u64 * 255 {
        return Err(corruption(0, "rollup uncompressed length exceeds LZ4 capacity"));
    }
    if payload.len() < 4 {
        return Err(corruption(48, "LZ4 rollup payload is too short"));
    }
    if read_le(payload, 0, 4) != size as u128 {
        return Err(corruption(48, "LZ4 size prefix disagrees with rollup header"));
    }
    let block = &payload[4..payload.len()];
    if !has_short_runs(block) {
        return Err(corruption(48, "LZ4 rollup payload has an overlong length"));
    }
    match decompress(block, size) {
        Ok(raw) => Ok(raw),
        Err(text) => {
            let mut reason = "invalid LZ4 rollup payload: ".to_owned();
            reason.append(text.as_str());
            Err(Error::Corruption { offset: 48, reason })
        },
    }
}

fn read_float(b: &[u8], at: usize) -> (v: FloatBits)
    requires
        at + 8 <= b@.len(),
    ensures
        v == float_at(b@, at as int),
{
    proof {
        lemma_pow256_values();
    }
    FloatBits(read_le(b, at, 8) as u64)
}

fn decode_bucket(b: &[u8], at: usize) -> (bucket: GaugeBucket)
    requires
        at + 104 <= b@.len(),
    ensures
        bucket == bucket_at(b@, at as int),
{
    proof {
        lemma_pow256_values();
    }
    let total: usize = b.len();
    let marks: u8 = b[at + 96];
    GaugeBucket {
        start: read_signed(b, at),
        end: read_signed(b, at + 8),
        count: read_le(b, at + 16, 8) as u64,
        sum: read_float(b, at + 24),
        min: if marks % 2 == 1 {
            Some(read_float(b, at + 32))
        } else {
            None
        },
        max: if (marks / 2) % 2 == 1 {
            Some(read_float(b, at + 40))
        } else {
            None
        },
        first: if (marks / 4) % 2 == 1 {
            Some(Sample { timestamp: read_signed(b, at + 48), value: read_float(b, at + 56) })
        } else {
            None
        },
        last: if (marks / 8) % 2 == 1 {
            Some(Sample { timestamp: read_signed(b, at + 64), value: read_float(b, at + 72) })
        } else {
            None
        },
        integral_value_micros: read_float(b, at + 80),
        covered_micros: read_signed(b, at + 88),
    }
}

fn decode_buckets(b: &[u8], n: usize) -> (buckets: Vec<GaugeBucket>)
    requires
        b@.len() == 104 * n,
    ensures
        buckets@ == buckets_at(b@, n as nat),
{
    let total: usize = b.len();
    let mut buckets: Vec<GaugeBucket> = Vec::new();
    let mut i: usize = 0;
    let mut at: usize = 0;
    while i < n
        invariant
            i <= n,
            at == 104 * i,
            b@.len() == 104 * n == total,
            buckets@ == buckets_at(b@, i as nat),
        decreases n - i,
    {
        buckets.push(decode_bucket(b, at));
        assert(buckets@ =~= buckets_at(b@, (i + 1) as nat));
        i = i + 1;
        at = at + 104;
    }
    buckets
}

/// A written rollup segment is read back.
#[verifier::spinoff_prover]
#[verifier::rlimit(30)]
proof fn lemma_rollup_read_back(buckets: Seq<GaugeBucket>, pack: Seq<u8>, b: Seq<u8>)
    requires
        buckets.len() <= MAX_ROLLUP_BUCKETS,
        buckets_fault(buckets, buckets.len(), 0) is None,
        b == rollup_bytes(buckets, pack),
        is_pack(buckets_bytes(buckets, buckets.len()), pack),
    ensures
        rollup_opened(b) matches Ok(read) && read == buckets,
{
    let n = buckets.len();
    let raw = buckets_bytes(buckets, n);
    let (compression, payload) = stored_buckets(buckets, pack);
    let fields = rollup_fields(buckets, pack);
    let tail = seq![(crc32_of(packed(fields)) as u128, 4usize)];
    lemma_buckets_len(buckets, n);
    lemma_le_len(raw.len(), 4);
    lemma_pow256_values();
    lemma_i64_bits(first_start(buckets));
    lemma_i64_bits(last_end(buckets));
    lemma_packed_len(fields, 10);
    lemma_packed_len(tail, 1);
    reveal_with_fuel(offset_of, 11);
    assert(packed(fields).len() == 44);
    assert(b.subrange(0, 44) =~= packed(fields));
    assert(b.subrange(44, 48) =~= packed(tail));
    assert(b.subrange(48, b.len() as int) =~= payload);
    assert(fields_fit(fields));
    assert(fields_fit(tail));
    lemma_fields(fields, b, 0);
    lemma_fields(tail, b, 44);
    let t0 = tail[0];
    let f0 = fields[0];
    let f1 = fields[1];
    let f2 = fields[2];
    let f4 = fields[4];
    let f5 = fields[5];
    let f6 = fields[6];
    let f7 = fields[7];
    let f8 = fields[8];
    let f9 = fields[9];
    lemma_byte(b, 10);
    if compression == 1 {
        lemma_le_round_trip(raw.len(), 4);
        assert(payload.subrange(0, 4) =~= le(raw.len(), 4));
        assert(payload.subrange(4, payload.len() as int) =~= pack);
    }
    assert(unpacked(b[10], payload, raw.len()) matches Ok(r) && r == raw);
    assert(buckets_at(raw, n) =~= buckets) by {
        assert forall|i: int| 0 <= i < n implies #[trigger] buckets_at(raw, n)[i]
            == buckets[i] by {
            lemma_bucket_read_back(buckets, i);
        }
    }
    lemma_fault_offset(buckets, n, 0, 48);
}

/// What a rollup segment was made of is what it gives back, whatever LZ4 block the
/// buckets were packed into: all buckets, and for a time range those that overlap
/// it.
pub proof fn rollup_round_trip(buckets: Seq<GaugeBucket>, pack: Seq<u8>, start: i64, end: i64)
    requires
        buckets.len() <= MAX_ROLLUP_BUCKETS,
        buckets_fault(buckets, buckets.len(), 0) is None,
        is_pack(buckets_bytes(buckets, buckets.len()), pack),
    ensures
        rollup_opened(rollup_bytes(buckets, pack)) matches Ok(read) && read == buckets,
        forall|i: int|
            0 <= i < buckets.len() && (#[trigger] buckets[i]).end > start && buckets[i].start < end
                ==> overlapping(buckets, start, end).contains(buckets[i]),
        forall|b: GaugeBucket| #[trigger]
            overlapping(buckets, start, end).contains(b) ==> buckets.contains(b) && b.end > start
                && b.start < end,
{
    lemma_rollup_read_back(buckets, pack, rollup_bytes(buckets, pack));
    lemma_overlapping(buckets, start, end);
}

proof fn lemma_overlapping(buckets: Seq<GaugeBucket>, start: i64, end: i64)
    ensures
        forall|i: int|
            0 <= i < buckets.len() && (#[trigger] buckets[i]).end > start && buckets[i].start < end
                ==> overlapping(buckets, start, end).contains(buckets[i]),
        forall|b: GaugeBucket| #[trigger]
            overlapping(buckets, start, end).contains(b) ==> buckets.contains(b) && b.end > start
                && b.start < end,
    decreases buckets.len(),
{
    if buckets.len() > 0 {
        let front = buckets.drop_last();
        lemma_overlapping(front, start, end);
        let found = overlapping(buckets, start, end);
        let before = overlapping(front, start, end);
        assert forall|i: int|
            0 <= i < buckets.len() && (#[trigger] buckets[i]).end > start && buckets[i].start
                < end implies found.contains(buckets[i]) by {
            if i < front.len() {
                assert(front[i] == buckets[i]);
                assert(before.contains(front[i]));
                let k = choose|k: int| 0 <= k < before.len() && before[k] == front[i];
                assert(found[k] == buckets[i]);
            } else {
                assert(found[found.len() - 1] == buckets[i]);
            }
        }
        assert forall|b: GaugeBucket| #[trigger] found.contains(b) implies buckets.contains(b)
            && b.end > start && b.start < end by {
            let k = choose|k: int| 0 <= k < found.len() && found[k] == b;
            if k < before.len() {
                assert(before[k] == b);
                assert(before.contains(b));
                let i = choose|i: int| 0 <= i < front.len() && front[i] == b;
                assert(buckets[i] == b);
            } else {
                assert(buckets[buckets.len() - 1] == b);
            }
        }
    }
}

} // verus!
