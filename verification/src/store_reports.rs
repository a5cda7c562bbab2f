//! What operators are told of stores: checks, seals, maintenance, backups and the rest.
use crate::json_line::JsonLine;
#[allow(unused_imports)]
use crate::json_line::{checksum_field, joined, number_field, object_text, raw_field, text_field};
#[allow(unused_imports)]
use crate::text::decimal;
use crate::text::put_decimal;
use vstd::prelude::*;
use vstd::string::*;

verus! {

#[derive(Debug, PartialEq, Eq)]
pub struct SealReport {
    pub manifest_generation: u64,
    pub segment_file: String,
    pub sealed_points: u64,
    pub live_points: u64,
    pub segment_bytes: u64,
    pub log_bytes: u64,
}

pub fn seal_report_json(report: &SealReport) -> (line: String)
    ensures
        line@ == object_text(
            seq![
                text_field("format"@, "ftwdb-seal-v1"@),
                number_field("manifest_generation"@, report.manifest_generation as nat),
                text_field("segment_file"@, report.segment_file@),
                number_field("sealed_points"@, report.sealed_points as nat),
                number_field("live_points"@, report.live_points as nat),
                number_field("segment_bytes"@, report.segment_bytes as nat),
                number_field("log_bytes"@, report.log_bytes as nat),
            ],
        ),
{
    let mut line = JsonLine::new();
    line.text("format", "ftwdb-seal-v1");
    line.number("manifest_generation", report.manifest_generation as u128);
    line.text("segment_file", report.segment_file.as_str());
    line.number("sealed_points", report.sealed_points as u128);
    line.number("live_points", report.live_points as u128);
    line.number("segment_bytes", report.segment_bytes as u128);
    line.number("log_bytes", report.log_bytes as u128);
    assert(line.fields() =~= seq![
        text_field("format"@, "ftwdb-seal-v1"@),
        number_field("manifest_generation"@, report.manifest_generation as nat),
        text_field("segment_file"@, report.segment_file@),
        number_field("sealed_points"@, report.sealed_points as nat),
        number_field("live_points"@, report.live_points as nat),
        number_field("segment_bytes"@, report.segment_bytes as nat),
        number_field("log_bytes"@, report.log_bytes as nat),
    ]);
    line.finish()
}

#[derive(Clone, Copy, Debug, PartialEq, Eq, Structural)]
pub struct MaintenanceReport {
    pub manifest_generation: u64,
    pub rollup_files_written: u64,
    pub rollup_buckets_written: u64,
    pub rollup_bytes_written: u64,
    pub retention_gates: u64,
}

pub fn maintain_report_json(report: &MaintenanceReport) -> (line: String)
    ensures
        line@ == object_text(
            seq![
                text_field("format"@, "ftwdb-maintain-v1"@),
                number_field("manifest_generation"@, report.manifest_generation as nat),
                number_field("rollup_files_written"@, report.rollup_files_written as nat),
                number_field("rollup_buckets_written"@, report.rollup_buckets_written as nat),
                number_field("rollup_bytes_written"@, report.rollup_bytes_written as nat),
                number_field("retention_gates"@, report.retention_gates as nat),
            ],
        ),
{
    let mut line = JsonLine::new();
    line.text("format", "ftwdb-maintain-v1");
    line.number("manifest_generation", report.manifest_generation as u128);
    line.number("rollup_files_written", report.rollup_files_written as u128);
    line.number("rollup_buckets_written", report.rollup_buckets_written as u128);
    line.number("rollup_bytes_written", report.rollup_bytes_written as u128);
    line.number("retention_gates", report.retention_gates as u128);
    assert(line.fields() =~= seq![
        text_field("format"@, "ftwdb-maintain-v1"@),
        number_field("manifest_generation"@, report.manifest_generation as nat),
        number_field("rollup_files_written"@, report.rollup_files_written as nat),
        number_field("rollup_buckets_written"@, report.rollup_buckets_written as nat),
        number_field("rollup_bytes_written"@, report.rollup_bytes_written as nat),
        number_field("retention_gates"@, report.retention_gates as nat),
    ]);
    line.finish()
}

/// What a check of a whole store found.
#[derive(Debug, PartialEq, Eq)]
pub struct IntegrityReport {
    pub manifest_generation: u64,
    pub raw_points: u64,
    pub raw_commits: u64,
    pub raw_recovered_tail_bytes: u64,
    pub raw_recovered_tail: String,
    pub active_rollup_files: u64,
    pub active_rollup_buckets: u64,
    pub active_rollup_bytes: u64,
    pub stale_rollup_files: u64,
}

pub fn integrity_report_json(report: &IntegrityReport) -> (line: String)
    ensures
        line@ == object_text(
            seq![
                text_field("format"@, "ftwdb-integrity-v1"@),
                number_field("manifest_generation"@, report.manifest_generation as nat),
                number_field("raw_points"@, report.raw_points as nat),
                number_field("raw_commits"@, report.raw_commits as nat),
                number_field("raw_recovered_tail_bytes"@, report.raw_recovered_tail_bytes as nat),
                text_field("raw_recovered_tail"@, report.raw_recovered_tail@),
                number_field("active_rollup_files"@, report.active_rollup_files as nat),
                number_field("active_rollup_buckets"@, report.active_rollup_buckets as nat),
                number_field("active_rollup_bytes"@, report.active_rollup_bytes as nat),
                number_field("stale_rollup_files"@, report.stale_rollup_files as nat),
            ],
        ),
{
    let mut line = JsonLine::new();
    line.text("format", "ftwdb-integrity-v1");
    line.number("manifest_generation", report.manifest_generation as u128);
    line.number("raw_points", report.raw_points as u128);
    line.number("raw_commits", report.raw_commits as u128);
    line.number("raw_recovered_tail_bytes", report.raw_recovered_tail_bytes as u128);
    line.text("raw_recovered_tail", report.raw_recovered_tail.as_str());
    line.number("active_rollup_files", report.active_rollup_files as u128);
    line.number("active_rollup_buckets", report.active_rollup_buckets as u128);
    line.number("active_rollup_bytes", report.active_rollup_bytes as u128);
    line.number("stale_rollup_files", report.stale_rollup_files as u128);
    assert(line.fields() =~= seq![
        text_field("format"@, "ftwdb-integrity-v1"@),
        number_field("manifest_generation"@, report.manifest_generation as nat),
        number_field("raw_points"@, report.raw_points as nat),
        number_field("raw_commits"@, report.raw_commits as nat),
        number_field("raw_recovered_tail_bytes"@, report.raw_recovered_tail_bytes as nat),
        text_field("raw_recovered_tail"@, report.raw_recovered_tail@),
        number_field("active_rollup_files"@, report.active_rollup_files as nat),
        number_field("active_rollup_buckets"@, report.active_rollup_buckets as nat),
        number_field("active_rollup_bytes"@, report.active_rollup_bytes as nat),
        number_field("stale_rollup_files"@, report.stale_rollup_files as nat),
    ]);
    line.finish()
}

/// What a generated workload holds.
#[derive(Clone, Copy, Debug, PartialEq, Eq, Structural)]
pub struct WorkloadReport {
    pub seed: u64,
    pub entities: u64,
    pub series: u64,
    pub runs: u64,
    pub plans: u64,
    pub points: u64,
    pub crc32: u32,
}

pub fn workload_report_json(report: &WorkloadReport) -> (line: String)
    ensures
        line@ == object_text(
            seq![
                text_field("format"@, "ftwdb-energy-workload-v1"@),
                number_field("seed"@, report.seed as nat),
                number_field("entities"@, report.entities as nat),
                number_field("series"@, report.series as nat),
                number_field("runs"@, report.runs as nat),
                number_field("plans"@, report.plans as nat),
                number_field("points"@, report.points as nat),
                checksum_field("crc32"@, report.crc32),
            ],
        ),
{
    let mut line = JsonLine::new();
    line.text("format", "ftwdb-energy-workload-v1");
    line.number("seed", report.seed as u128);
    line.number("entities", report.entities as u128);
    line.number("series", report.series as u128);
    line.number("runs", report.runs as u128);
    line.number("plans", report.plans as u128);
    line.number("points", report.points as u128);
    line.checksum("crc32", report.crc32);
    assert(line.fields() =~= seq![
        text_field("format"@, "ftwdb-energy-workload-v1"@),
        number_field("seed"@, report.seed as nat),
        number_field("entities"@, report.entities as nat),
        number_field("series"@, report.series as nat),
        number_field("runs"@, report.runs as nat),
        number_field("plans"@, report.plans as nat),
        number_field("points"@, report.points as nat),
        checksum_field("crc32"@, report.crc32),
    ]);
    line.finish()
}

/// What an inspection of a database file found.
#[derive(Debug, PartialEq, Eq)]
pub struct DatabaseReport {
    pub points: u64,
    pub commits: u64,
    pub series: u64,
    pub catalog_records: u64,
    pub file_bytes: u64,
    pub recovered_tail_bytes: u64,
    pub recovered_tail: String,
}

/// A line with a count.
pub open spec fn count_line(name: Seq<char>, n: u64) -> Seq<char> {
    name + ": "@ + decimal(n as nat) + "\n"@
}

fn put_count_line(text: &mut String, name: &str, n: u64)
    ensures
        final(text)@ == old(text)@ + count_line(name@, n),
{
    text.append(name);
    text.append(": ");
    put_decimal(text, n as u128);
    text.append("\n");
    assert(text@ =~= old(text)@ + count_line(name@, n));
}

/// What an inspection prints.
pub fn database_report_text(report: &DatabaseReport) -> (text: String)
    ensures
        text@ == "format: ftwdb-v1\n"@ + count_line("points"@, report.points) + count_line(
            "commits"@,
            report.commits,
        ) + count_line("series"@, report.series) + count_line(
            "catalog_records"@,
            report.catalog_records,
        ) + count_line("file_bytes"@, report.file_bytes) + count_line(
            "recovered_tail_bytes"@,
            report.recovered_tail_bytes,
        ) + "recovered_tail: "@ + report.recovered_tail@ + "\n"@,
{
    let mut text = "format: ftwdb-v1\n".to_owned();
    put_count_line(&mut text, "points", report.points);
    put_count_line(&mut text, "commits", report.commits);
    put_count_line(&mut text, "series", report.series);
    put_count_line(&mut text, "catalog_records", report.catalog_records);
    put_count_line(&mut text, "file_bytes", report.file_bytes);
    put_count_line(&mut text, "recovered_tail_bytes", report.recovered_tail_bytes);
    text.append("recovered_tail: ");
    text.append(report.recovered_tail.as_str());
    text.append("\n");
    text
}

#[derive(Clone, Copy, Debug, PartialEq, Eq, Structural)]
pub struct RestoreReport {
    pub files: u64,
    pub bytes: u64,
    pub manifest_generation: u64,
    pub raw_commits: u64,
    pub raw_points: u64,
    pub source_snapshot_crc32: u32,
    pub destination_snapshot_crc32: u32,
}

pub fn restore_report_json(report: &RestoreReport) -> (line: String)
    ensures
        line@ == object_text(
            seq![
                text_field("format"@, "ftwdb-restore-v1"@),
                number_field("files"@, report.files as nat),
                number_field("bytes"@, report.bytes as nat),
                number_field("manifest_generation"@, report.manifest_generation as nat),
                number_field("raw_commits"@, report.raw_commits as nat),
                number_field("raw_points"@, report.raw_points as nat),
                checksum_field("source_snapshot_crc32"@, report.source_snapshot_crc32),
                checksum_field("destination_snapshot_crc32"@, report.destination_snapshot_crc32),
            ],
        ),
{
    let mut line = JsonLine::new();
    line.text("format", "ftwdb-restore-v1");
    line.number("files", report.files as u128);
    line.number("bytes", report.bytes as u128);
    line.number("manifest_generation", report.manifest_generation as u128);
    line.number("raw_commits", report.raw_commits as u128);
    line.number("raw_points", report.raw_points as u128);
    line.checksum("source_snapshot_crc32", report.source_snapshot_crc32);
    line.checksum("destination_snapshot_crc32", report.destination_snapshot_crc32);
    assert(line.fields() =~= seq![
        text_field("format"@, "ftwdb-restore-v1"@),
        number_field("files"@, report.files as nat),
        number_field("bytes"@, report.bytes as nat),
        number_field("manifest_generation"@, report.manifest_generation as nat),
        number_field("raw_commits"@, report.raw_commits as nat),
        number_field("raw_points"@, report.raw_points as nat),
        checksum_field("source_snapshot_crc32"@, report.source_snapshot_crc32),
        checksum_field("destination_snapshot_crc32"@, report.destination_snapshot_crc32),
    ]);
    line.finish()
}

/// What a salvage saved. Its status and the reason for which it stopped are fixed names.
#[derive(Debug, PartialEq, Eq)]
pub struct SalvageReport {
    pub status: String,
    pub source_bytes: u64,
    pub recovered_prefix_bytes: u64,
    pub discarded_bytes: u64,
    pub stop_offset: u64,
    pub stop_reason: String,
    pub recovered_commits: u64,
    pub recovered_points: u64,
    pub source_prefix_crc32: u32,
    pub destination_snapshot_crc32: u32,
}

pub fn salvage_report_json(report: &SalvageReport) -> (line: String)
    ensures
        line@ == object_text(
            seq![
                text_field("format"@, "ftwdb-salvage-v1"@),
                text_field("status"@, report.status@),
                number_field("source_bytes"@, report.source_bytes as nat),
                number_field("recovered_prefix_bytes"@, report.recovered_prefix_bytes as nat),
                number_field("discarded_bytes"@, report.discarded_bytes as nat),
                number_field("stop_offset"@, report.stop_offset as nat),
                text_field("stop_reason"@, report.stop_reason@),
                number_field("recovered_commits"@, report.recovered_commits as nat),
                number_field("recovered_points"@, report.recovered_points as nat),
                checksum_field("source_prefix_crc32"@, report.source_prefix_crc32),
                checksum_field("destination_snapshot_crc32"@, report.destination_snapshot_crc32),
            ],
        ),
{
    let mut line = JsonLine::new();
    line.text("format", "ftwdb-salvage-v1");
    line.text("status", report.status.as_str());
    line.number("source_bytes", report.source_bytes as u128);
    line.number("recovered_prefix_bytes", report.recovered_prefix_bytes as u128);
    line.number("discarded_bytes", report.discarded_bytes as u128);
    line.number("stop_offset", report.stop_offset as u128);
    line.text("stop_reason", report.stop_reason.as_str());
    line.number("recovered_commits", report.recovered_commits as u128);
    line.number("recovered_points", report.recovered_points as u128);
    line.checksum("source_prefix_crc32", report.source_prefix_crc32);
    line.checksum("destination_snapshot_crc32", report.destination_snapshot_crc32);
    assert(line.fields() =~= seq![
        text_field("format"@, "ftwdb-salvage-v1"@),
        text_field("status"@, report.status@),
        number_field("source_bytes"@, report.source_bytes as nat),
        number_field("recovered_prefix_bytes"@, report.recovered_prefix_bytes as nat),
        number_field("discarded_bytes"@, report.discarded_bytes as nat),
        number_field("stop_offset"@, report.stop_offset as nat),
        text_field("stop_reason"@, report.stop_reason@),
        number_field("recovered_commits"@, report.recovered_commits as nat),
        number_field("recovered_points"@, report.recovered_points as nat),
        checksum_field("source_prefix_crc32"@, report.source_prefix_crc32),
        checksum_field("destination_snapshot_crc32"@, report.destination_snapshot_crc32),
    ]);
    line.finish()
}

/// Why a file could not be linked.
#[derive(Clone, Copy, Debug, PartialEq, Eq, Structural)]
pub enum LinkErrorKind {
    NotFound,
    PermissionDenied,
    AlreadyExists,
    CrossesDevices,
    ReadOnlyFilesystem,
    StorageFull,
    QuotaExceeded,
    Unsupported,
    InvalidInput,
    InvalidData,
    FileTooLarge,
    ResourceBusy,
    Other,
}

/// The fixed name of a kind.
pub open spec fn kind_name(kind: LinkErrorKind) -> Seq<char> {
    match kind {
        LinkErrorKind::NotFound => "not-found"@,
        LinkErrorKind::PermissionDenied => "permission-denied"@,
        LinkErrorKind::AlreadyExists => "already-exists"@,
        LinkErrorKind::CrossesDevices => "crosses-devices"@,
        LinkErrorKind::ReadOnlyFilesystem => "read-only-filesystem"@,
        LinkErrorKind::StorageFull => "storage-full"@,
        LinkErrorKind::QuotaExceeded => "quota-exceeded"@,
        LinkErrorKind::Unsupported => "unsupported"@,
        LinkErrorKind::InvalidInput => "invalid-input"@,
        LinkErrorKind::InvalidData => "invalid-data"@,
        LinkErrorKind::FileTooLarge => "file-too-large"@,
        LinkErrorKind::ResourceBusy => "resource-busy"@,
        LinkErrorKind::Other => "other"@,
    }
}

pub fn io_error_kind_name(kind: LinkErrorKind) -> (name: &'static str)
    ensures
        name@ == kind_name(kind),
{
    match kind {
        LinkErrorKind::NotFound => "not-found",
        LinkErrorKind::PermissionDenied => "permission-denied",
        LinkErrorKind::AlreadyExists => "already-exists",
        LinkErrorKind::CrossesDevices => "crosses-devices",
        LinkErrorKind::ReadOnlyFilesystem => "read-only-filesystem",
        LinkErrorKind::StorageFull => "storage-full",
        LinkErrorKind::QuotaExceeded => "quota-exceeded",
        LinkErrorKind::Unsupported => "unsupported",
        LinkErrorKind::InvalidInput => "invalid-input",
        LinkErrorKind::InvalidData => "invalid-data",
        LinkErrorKind::FileTooLarge => "file-too-large",
        LinkErrorKind::ResourceBusy => "resource-busy",
        LinkErrorKind::Other => "other",
    }
}

#[derive(Debug, PartialEq, Eq)]
pub struct BackupReport {
    pub files: u64,
    pub bytes: u64,
    pub manifest_generation: u64,
    pub linked_files: u64,
    pub copied_files: u64,
    pub hard_link_fallbacks: u64,
    pub hard_link_fallback_error_kinds: Vec<LinkErrorKind>,
}

/// The names of kinds, each in quotes.
pub open spec fn quoted_kinds(kinds: Seq<LinkErrorKind>) -> Seq<Seq<char>> {
    Seq::new(kinds.len(), |i: int| "\""@ + kind_name(kinds[i]) + "\""@)
}

pub fn backup_report_json(report: &BackupReport) -> (line: String)
    ensures
        line@ == object_text(
            seq![
                text_field("format"@, "ftwdb-backup-v1"@),
                number_field("files"@, report.files as nat),
                number_field("bytes"@, report.bytes as nat),
                number_field("manifest_generation"@, report.manifest_generation as nat),
                number_field("linked_files"@, report.linked_files as nat),
                number_field("copied_files"@, report.copied_files as nat),
                number_field("hard_link_fallbacks"@, report.hard_link_fallbacks as nat),
                raw_field(
                    "hard_link_fallback_error_kinds"@,
                    "["@ + joined(quoted_kinds(report.hard_link_fallback_error_kinds@)) + "]"@,
                ),
            ],
        ),
{
    let mut list = "[".to_owned();
    let ghost all = quoted_kinds(report.hard_link_fallback_error_kinds@);
    let mut i: usize = 0;
    assert(list@ =~= "["@ + joined(all.take(0)));
    while i < report.hard_link_fallback_error_kinds.len()
        invariant
            i <= report.hard_link_fallback_error_kinds@.len(),
            all == quoted_kinds(report.hard_link_fallback_error_kinds@),
            list@ == "["@ + joined(all.take(i as int)),
        decreases report.hard_link_fallback_error_kinds@.len() - i,
    {
        if i > 0 {
            list.append(",");
        }
        list.append("\"");
        list.append(io_error_kind_name(report.hard_link_fallback_error_kinds[i]));
        list.append("\"");
        proof {
            assert(all.take(i + 1).drop_last() =~= all.take(i as int));
            assert(all.take(i + 1).last() == all[i as int]);
        }
        i = i + 1;
        assert(list@ =~= "["@ + joined(all.take(i as int)));
    }
    assert(all.take(all.len() as int) =~= all);
    list.append("]");
    let mut line = JsonLine::new();
    line.text("format", "ftwdb-backup-v1");
    line.number("files", report.files as u128);
    line.number("bytes", report.bytes as u128);
    line.number("manifest_generation", report.manifest_generation as u128);
    line.number("linked_files", report.linked_files as u128);
    line.number("copied_files", report.copied_files as u128);
    line.number("hard_link_fallbacks", report.hard_link_fallbacks as u128);
    line.raw("hard_link_fallback_error_kinds", list.as_str());
    assert(line.fields() =~= seq![
        text_field("format"@, "ftwdb-backup-v1"@),
        number_field("files"@, report.files as nat),
        number_field("bytes"@, report.bytes as nat),
        number_field("manifest_generation"@, report.manifest_generation as nat),
        number_field("linked_files"@, report.linked_files as nat),
        number_field("copied_files"@, report.copied_files as nat),
        number_field("hard_link_fallbacks"@, report.hard_link_fallbacks as nat),
        raw_field("hard_link_fallback_error_kinds"@, "["@ + joined(all) + "]"@),
    ]);
    line.finish()
}

} // verus!
