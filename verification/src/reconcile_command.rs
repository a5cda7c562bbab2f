//! The reconciliation command: commit frames in hex, read under limits, and its report.
use crate::json_line::JsonLine;
#[allow(unused_imports)]
use crate::json_line::{bool_field, number_field, object_text};
use crate::shadow_protocol::{
    decode, CommitBatchRequest, Request, WireMessage, MAX_FRAME_BYTES,
};
#[allow(unused_imports)]
use crate::shadow_protocol::{
    decoded, message_read, protocol_error_text, BatchModel, MessageModel, ProtocolError,
};
use crate::shadow_reconcile::{ShadowReconcileLimits, ShadowReconciliationReport};
#[allow(unused_imports)]
use crate::shadow_reconcile::{all_content_matches, metadata_of};
use crate::text::{put_decimal, text_from_utf8};
#[allow(unused_imports)]
use crate::text::decimal;
use crate::text_scan::{characters, text_of, trim};
#[allow(unused_imports)]
use crate::text_scan::trimmed;
use vstd::prelude::*;
use vstd::string::*;
use vstd::utf8::*;

verus! {

/// The largest file of a frame in hex, with a line end behind it.
pub const MAX_HEX_FILE_BYTES: usize = 8_388_610;

pub const MAX_TOTAL_FRAME_BYTES: usize = 268_435_456;

/// The value of a hex digit.
pub open spec fn hex_value(byte: u8) -> Option<u8> {
    if 0x30 <= byte <= 0x39 {
        Some((byte - 0x30) as u8)
    } else if 0x61 <= byte <= 0x66 {
        Some((byte - 0x61 + 10) as u8)
    } else if 0x41 <= byte <= 0x46 {
        Some((byte - 0x41 + 10) as u8)
    } else {
        None
    }
}

pub fn hex_digit(value: u8) -> (digit: Result<u8, &'static str>)
    ensures
        match hex_value(value) {
            Some(v) => digit == Ok::<u8, &'static str>(v) && v < 16,
            None => digit == Err::<u8, _>("frame contains a non-hex byte"),
        },
{
    if 0x30 <= value && value <= 0x39 {
        Ok(value - 0x30)
    } else if 0x61 <= value && value <= 0x66 {
        Ok(value - 0x61 + 10)
    } else if 0x41 <= value && value <= 0x46 {
        Ok(value - 0x41 + 10)
    } else {
        Err("frame contains a non-hex byte")
    }
}

/// The bytes that the first `n` pairs of hex digits stand for.
pub open spec fn hex_pairs(digits: Seq<u8>, n: nat) -> Option<Seq<u8>>
    decreases n,
{
    if n == 0 {
        Some(Seq::empty())
    } else {
        match (
            hex_pairs(digits, (n - 1) as nat),
            hex_value(digits[2 * n - 2]),
            hex_value(digits[2 * n - 1]),
        ) {
            (Some(front), Some(high), Some(low)) => Some(front.push((high * 16 + low) as u8)),
            _ => None,
        }
    }
}

/// The bytes that a text in hex stands for, or why it stands for none.
pub open spec fn hex_decoded(text: Seq<char>) -> Result<Seq<u8>, &'static str> {
    let digits = encode_utf8(trimmed(text));
    if digits.len() % 2 != 0 {
        Err("hex has an odd number of digits")
    } else if digits.len() / 2 > MAX_FRAME_BYTES {
        Err("frame exceeds the protocol limit")
    } else {
        match hex_pairs(digits, digits.len() / 2) {
            Some(bytes) => Ok(bytes),
            None => Err("frame contains a non-hex byte"),
        }
    }
}

proof fn lemma_bad_pair(digits: Seq<u8>, n: nat, total: nat)
    requires
        n <= total,
        hex_pairs(digits, n) is None,
    ensures
        hex_pairs(digits, total) is None,
    decreases total,
{
    if n < total {
        lemma_bad_pair(digits, n, (total - 1) as nat);
    }
}

/// The bytes that a text in hex stands for. White space around it counts for nothing.
pub fn decode_hex(input: &str) -> (outcome: Result<Vec<u8>, &'static str>)
    ensures
        match outcome {
            Ok(bytes) => hex_decoded(input@) == Ok::<Seq<u8>, &'static str>(bytes@),
            Err(reason) => hex_decoded(input@) == Err::<Seq<u8>, _>(reason),
        },
{
    let inner = text_of(trim(characters(input).as_slice()).as_slice());
    let digits = inner.as_str().as_bytes();
    let total: usize = digits.len();
    if total % 2 != 0 {
        return Err("hex has an odd number of digits");
    }
    if total / 2 > MAX_FRAME_BYTES {
        return Err("frame exceeds the protocol limit");
    }
    let ghost d = digits@;
    let mut out: Vec<u8> = Vec::new();
    let mut i: usize = 0;
    while i < total / 2
        invariant
            i <= total / 2,
            total == digits@.len(),
            d == digits@,
            total % 2 == 0,
            total / 2 <= MAX_FRAME_BYTES,
            d == encode_utf8(trimmed(input@)),
            hex_pairs(d, i as nat) == Some(out@),
        decreases total / 2 - i,
    {
        let high: u8 = match hex_digit(digits[2 * i]) {
            Ok(high) => high,
            Err(reason) => {
                proof {
                    lemma_bad_pair(d, (i + 1) as nat, (total / 2) as nat);
                }
                return Err(reason);
            },
        };
        let low: u8 = match hex_digit(digits[2 * i + 1]) {
            Ok(low) => low,
            Err(reason) => {
                proof {
                    lemma_bad_pair(d, (i + 1) as nat, (total / 2) as nat);
                }
                return Err(reason);
            },
        };
        out.push(high * 16 + low);
        i = i + 1;
    }
    Ok(out)
}

/// Adds to a total that must stay within a limit.
pub fn add_with_limit(current: usize, addition: usize, maximum: usize, name: &str) -> (outcome:
    Result<usize, String>)
    ensures
        match outcome {
            Ok(total) => total == current + addition && total <= maximum,
            Err(text) => if current + addition > usize::MAX {
                text@ == name@ + " count overflows"@
            } else {
                current + addition > maximum && text@ == name@ + " exceed the limit of "@ + decimal(
                    maximum as nat,
                )
            },
        },
{
    let total: usize = match current.checked_add(addition) {
        Some(total) => total,
        None => {
            let mut text = name.to_owned();
            text.append(" count overflows");
            return Err(text);
        },
    };
    if total > maximum {
        let mut text = name.to_owned();
        text.append(" exceed the limit of ");
        put_decimal(&mut text, maximum as u128);
        return Err(text);
    }
    Ok(total)
}

/// The store directory and the commit frames that the command was given.
pub fn collect_arguments(arguments: Vec<String>, max_batches: usize) -> (outcome: Result<
    (String, Vec<String>),
    String,
>)
    ensures
        match outcome {
            Ok((store, frames)) => {
                &&& 2 <= arguments@.len() <= max_batches + 1
                &&& store == arguments@[0]
                &&& frames@ == arguments@.skip(1)
            },
            Err(text) => if arguments@.len() > max_batches + 1 {
                text@ == "commit frame count exceeds the limit of "@ + decimal(max_batches as nat)
            } else {
                arguments@.len() < 2 && text@
                    == "a store directory and at least one commit frame are required"@
            },
        },
{
    let mut arguments = arguments;
    if arguments.len() == 0 {
        return Err("a store directory and at least one commit frame are required".to_owned());
    }
    let store = arguments.remove(0);
    if arguments.len() > max_batches {
        let mut text = "commit frame count exceeds the limit of ".to_owned();
        put_decimal(&mut text, max_batches as u128);
        return Err(text);
    }
    if arguments.len() == 0 {
        return Err("a store directory and at least one commit frame are required".to_owned());
    }
    Ok((store, arguments))
}

/// What was read of the frames so far.
#[derive(Clone, Copy, Debug, PartialEq, Eq, Structural)]
pub struct FrameTotals {
    pub frame_bytes: usize,
    pub metadata_records: usize,
    pub points: usize,
}

impl Default for FrameTotals {
    fn default() -> (totals: Self)
        ensures
            totals == (FrameTotals { frame_bytes: 0, metadata_records: 0, points: 0 }),
    {
        FrameTotals { frame_bytes: 0, metadata_records: 0, points: 0 }
    }
}

/// A total after an addition, or what is said where it breaks its limit.
pub open spec fn limited(current: usize, addition: nat, maximum: usize, name: Seq<char>) -> Result<
    usize,
    Seq<char>,
> {
    if current + addition > usize::MAX {
        Err(name + " count overflows"@)
    } else if current + addition > maximum {
        Err(name + " exceed the limit of "@ + decimal(maximum as nat))
    } else {
        Ok((current + addition) as usize)
    }
}

/// The totals and the batch after one more frame, or why the frame is refused. The bytes
/// of the frame are counted before it is parsed.
pub open spec fn frame_taken(
    totals: FrameTotals,
    limits: ShadowReconcileLimits,
    path: Seq<char>,
    text: Seq<char>,
) -> Result<(FrameTotals, BatchModel), Seq<char>> {
    match hex_decoded(text) {
        Err(reason) => Err("decode "@ + path + ": "@ + reason@),
        Ok(frame) => match limited(
            totals.frame_bytes,
            frame.len(),
            MAX_TOTAL_FRAME_BYTES,
            "decoded frame bytes"@,
        ) {
            Err(reason) => Err(reason),
            Ok(frame_bytes) => match batch_in(frame, path) {
                Err(reason) => Err(reason),
                Ok(batch) => match batch_counted(
                    FrameTotals { frame_bytes, ..totals },
                    limits,
                    batch,
                ) {
                    Err(reason) => Err(reason),
                    Ok(counted) => Ok((counted, batch)),
                },
            },
        },
    }
}

fn metadata_records(batch: &CommitBatchRequest) -> (count: Option<usize>)
    ensures
        match count {
            Some(n) => n == metadata_of(batch.deep_view()),
            None => metadata_of(batch.deep_view()) > usize::MAX,
        },
{
    let mut count: usize = batch.entities.len();
    match count.checked_add(batch.relations.len()) {
        Some(n) => {
            count = n;
        },
        None => {
            return None;
        },
    }
    match count.checked_add(batch.series.len()) {
        Some(n) => {
            count = n;
        },
        None => {
            return None;
        },
    }
    match count.checked_add(batch.runs.len()) {
        Some(n) => {
            count = n;
        },
        None => {
            return None;
        },
    }
    count.checked_add(batch.plans.len())
}

fn said_of(what: &str, path: &str, reason: &str) -> (text: String)
    ensures
        text@ == what@ + path@ + ": "@ + reason@,
{
    let mut text = what.to_owned();
    text.append(path);
    text.append(": ");
    text.append(reason);
    text
}

/// The batch of a frame, or why there is none.
pub open spec fn batch_in(frame: Seq<u8>, path: Seq<char>) -> Result<BatchModel, Seq<char>> {
    match decoded(frame) {
        Err(error) => Err("parse "@ + path + ": "@ + protocol_error_text(error)),
        Ok(MessageModel::CommitBatch(batch)) => Ok(batch),
        Ok(_) => Err(path + " is not a commit-batch request"@),
    }
}

fn parse_batch(frame: &[u8], path: &str) -> (outcome: Result<CommitBatchRequest, String>)
    ensures
        match outcome {
            Ok(batch) => batch_in(frame@, path@) == Ok::<_, Seq<char>>(batch.deep_view()),
            Err(said) => batch_in(frame@, path@) == Err::<BatchModel, _>(said@),
        },
{
    match decode(frame) {
        Ok(WireMessage::Request(Request::CommitBatch(batch))) => Ok(batch),
        Ok(_) => {
            let mut text = path.to_owned();
            text.append(" is not a commit-batch request");
            Err(text)
        },
        Err(error) => {
            let said = error.message();
            Err(said_of("parse ", path, said.as_str()))
        },
    }
}

/// The totals after the records of a batch, or which limit they break.
pub open spec fn batch_counted(
    totals: FrameTotals,
    limits: ShadowReconcileLimits,
    batch: BatchModel,
) -> Result<FrameTotals, Seq<char>> {
    if metadata_of(batch) > usize::MAX {
        Err("metadata record count overflows"@)
    } else {
        match limited(
            totals.metadata_records,
            metadata_of(batch),
            limits.max_metadata_records,
            "metadata records"@,
        ) {
            Err(reason) => Err(reason),
            Ok(metadata_records) => match limited(
                totals.points,
                batch.points.len(),
                limits.max_expected_points,
                "expected points"@,
            ) {
                Err(reason) => Err(reason),
                Ok(points) => Ok(FrameTotals { metadata_records, points, ..totals }),
            },
        }
    }
}

fn count_batch(
    totals: FrameTotals,
    limits: &ShadowReconcileLimits,
    batch: &CommitBatchRequest,
) -> (outcome: Result<FrameTotals, String>)
    ensures
        match outcome {
            Ok(counted) => batch_counted(totals, *limits, batch.deep_view()) == Ok::<
                _,
                Seq<char>,
            >(counted),
            Err(said) => batch_counted(totals, *limits, batch.deep_view()) == Err::<
                FrameTotals,
                _,
            >(said@),
        },
{
    let metadata: usize = match metadata_records(batch) {
        Some(metadata) => metadata,
        None => {
            return Err("metadata record count overflows".to_owned());
        },
    };
    let metadata_records: usize = add_with_limit(
        totals.metadata_records,
        metadata,
        limits.max_metadata_records,
        "metadata records",
    )?;
    let points: usize = add_with_limit(
        totals.points,
        batch.points.len(),
        limits.max_expected_points,
        "expected points",
    )?;
    Ok(FrameTotals { metadata_records, points, ..totals })
}

/// The text of a file of a frame in hex, or why the file is not taken.
pub open spec fn hex_file_text(path: Seq<char>, bytes: Seq<u8>) -> Result<Seq<char>, Seq<char>> {
    if bytes.len() > MAX_HEX_FILE_BYTES {
        Err(path + " exceeds the encoded frame limit"@)
    } else if !valid_utf8(bytes) {
        Err(path + " is not UTF-8 hex text"@)
    } else {
        Ok(decode_utf8(bytes))
    }
}

/// Takes the bytes of a file of a frame in hex as text.
pub fn take_hex_file(path: &str, bytes: &[u8]) -> (outcome: Result<String, String>)
    ensures
        match hex_file_text(path@, bytes@) {
            Ok(text) => outcome matches Ok(found) && found@ == text,
            Err(reason) => outcome matches Err(said) && said@ == reason,
        },
{
    let mut said = path.to_owned();
    if bytes.len() > MAX_HEX_FILE_BYTES {
        said.append(" exceeds the encoded frame limit");
        return Err(said);
    }
    match text_from_utf8(bytes) {
        Some(text) => Ok(text),
        None => {
            said.append(" is not UTF-8 hex text");
            Err(said)
        },
    }
}

impl FrameTotals {
    /// Reads the batch of one more frame.
    pub fn take_frame(&mut self, limits: &ShadowReconcileLimits, path: &str, text: &str) -> (outcome:
        Result<CommitBatchRequest, String>)
        ensures
            match frame_taken(*old(self), *limits, path@, text@) {
                Ok((totals, batch)) => {
                    &&& outcome matches Ok(found) && found.deep_view() == batch
                    &&& *final(self) == totals
                },
                Err(reason) => {
                    &&& outcome matches Err(said) && said@ == reason
                    &&& *final(self) == *old(self)
                },
            },
    {
        let frame = match decode_hex(text) {
            Ok(frame) => frame,
            Err(reason) => {
                return Err(said_of("decode ", path, reason));
            },
        };
        let frame_bytes: usize = add_with_limit(
            self.frame_bytes,
            frame.len(),
            MAX_TOTAL_FRAME_BYTES,
            "decoded frame bytes",
        )?;
        let batch = parse_batch(frame.as_slice(), path)?;
        let totals = FrameTotals { frame_bytes, ..*self };
        *self = count_batch(totals, limits, &batch)?;
        Ok(batch)
    }
}

/// The fields of a report line.
pub open spec fn report_fields(report: ShadowReconciliationReport) -> Seq<Seq<char>> {
    seq![
        bool_field("content_matches"@, all_content_matches(report@)),
        bool_field("read_only_durability_proof"@, false),
        number_field("expected_batches"@, report.expected_batches as nat),
        number_field("matching_receipts"@, report.matching_receipts as nat),
        number_field("missing_receipts"@, report.missing_receipts as nat),
        number_field("conflicting_receipts"@, report.conflicting_receipts as nat),
        number_field("receipt_shape_mismatches"@, report.receipt_shape_mismatches as nat),
        number_field("receipt_payload_mismatches"@, report.receipt_payload_mismatches as nat),
        number_field("nondurable_receipts"@, report.nondurable_receipts as nat),
        number_field("expected_catalog_objects"@, report.expected_catalog_objects as nat),
        number_field("matching_catalog_objects"@, report.matching_catalog_objects as nat),
        number_field("missing_catalog_objects"@, report.missing_catalog_objects as nat),
        number_field("different_catalog_objects"@, report.different_catalog_objects as nat),
        number_field("expected_points"@, report.expected_points as nat),
        number_field("scanned_points"@, report.scanned_points as nat),
        number_field("observed_points"@, report.observed_points as nat),
        number_field("matching_points"@, report.matching_points as nat),
        number_field("missing_points"@, report.missing_points as nat),
        number_field("unexpected_points"@, report.unexpected_points as nat),
        number_field("mismatch_groups"@, report.mismatch_groups as nat),
        number_field("reported_mismatch_details"@, report.mismatch_details@.len()),
        bool_field("details_truncated"@, report.details_truncated),
    ]
}

/// The report as one line.
pub fn report_json(report: &ShadowReconciliationReport) -> (line: String)
    ensures
        line@ == object_text(report_fields(*report)),
{
    let mut line = JsonLine::new();
    line.boolean("content_matches", report.content_matches());
    line.boolean("read_only_durability_proof", false);
    line.number("expected_batches", report.expected_batches as u128);
    line.number("matching_receipts", report.matching_receipts as u128);
    line.number("missing_receipts", report.missing_receipts as u128);
    line.number("conflicting_receipts", report.conflicting_receipts as u128);
    line.number("receipt_shape_mismatches", report.receipt_shape_mismatches as u128);
    line.number("receipt_payload_mismatches", report.receipt_payload_mismatches as u128);
    line.number("nondurable_receipts", report.nondurable_receipts as u128);
    line.number("expected_catalog_objects", report.expected_catalog_objects as u128);
    line.number("matching_catalog_objects", report.matching_catalog_objects as u128);
    line.number("missing_catalog_objects", report.missing_catalog_objects as u128);
    line.number("different_catalog_objects", report.different_catalog_objects as u128);
    line.number("expected_points", report.expected_points as u128);
    line.number("scanned_points", report.scanned_points as u128);
    line.number("observed_points", report.observed_points as u128);
    line.number("matching_points", report.matching_points as u128);
    line.number("missing_points", report.missing_points as u128);
    line.number("unexpected_points", report.unexpected_points as u128);
    line.number("mismatch_groups", report.mismatch_groups as u128);
    line.number("reported_mismatch_details", report.mismatch_details.len() as u128);
    line.boolean("details_truncated", report.details_truncated);
    assert(line.fields() =~= report_fields(*report));
    line.finish()
}

} // verus!
