//! Bounded, read-only comparison of source batches with a shadow store.
//!
//! The caller supplies the source batches for one comparison window in their
//! intended cross-source commit order. The report checks every ordered-ingress
//! receipt, the last supplied form of each catalog object, and exact point
//! multiplicities. Point comparison covers the smallest timestamp span that
//! contains the supplied points for each series. Catalog comparison is one-way
//! because catalog records do not retain an ingress source identifier.
use crate::catalog::Catalog;
#[allow(unused_imports)]
use crate::catalog::CatalogModel;
use crate::error::Error;
#[allow(unused_imports)]
use crate::error::error_text;
use crate::map_keys::{insert_pair, u128_keys, u64_keys};
#[allow(unused_imports)]
use crate::map_keys::{ascending_ids, lemma_sorted, sorted_ids};
use crate::model::{Entity, EntityId, Plan, Point, Relation, RelationId, Run, RunId, SeriesDefinition};
#[allow(unused_imports)]
use crate::model::{EntityModel, PlanModel, RelationModel, RunModel, SeriesModel};
use crate::point_keys::{count_points, PointCounts, ShadowPointKey};
#[allow(unused_imports)]
use crate::point_keys::{counted, key_of, names, occurrences, same_contents};
use crate::sameness::{
    entities_are_same, plans_are_same, relations_are_same, runs_are_same, series_are_same,
};
#[allow(unused_imports)]
use crate::sameness::{same_entity, same_plan, same_relation, same_run};
use crate::shadow_protocol::CommitBatchRequest;
#[allow(unused_imports)]
use crate::shadow_protocol::BatchModel;
use crate::storage::IngressIdentity;
use crate::text::put_decimal;
#[allow(unused_imports)]
use crate::text::decimal;
use std::collections::{BTreeMap, BTreeSet};
use vstd::prelude::*;
use vstd::std_specs::btree::*;
use vstd::string::*;

verus! {

pub const DEFAULT_MAX_RECONCILE_BATCHES: usize = 65_536;

pub const DEFAULT_MAX_RECONCILE_METADATA: usize = 1_000_000;

pub const DEFAULT_MAX_RECONCILE_POINTS: usize = 1_000_000;

pub const DEFAULT_MAX_RECONCILE_SCANNED_POINTS: usize = 1_000_000;

pub const DEFAULT_MAX_RECONCILE_DETAILS: usize = 256;

/// Work and output limits for one reconciliation window.
#[derive(Clone, Copy, Debug, PartialEq, Eq, Structural)]
pub struct ShadowReconcileLimits {
    pub max_batches: usize,
    pub max_metadata_records: usize,
    pub max_expected_points: usize,
    pub max_observed_points: usize,
    /// Maximum raw series entries visited before timestamp filtering.
    pub max_scanned_points: usize,
    pub max_mismatch_details: usize,
}

impl Default for ShadowReconcileLimits {
    fn default() -> (limits: Self)
        ensures
            limits == (ShadowReconcileLimits {
                max_batches: 65_536,
                max_metadata_records: 1_000_000,
                max_expected_points: 1_000_000,
                max_observed_points: 1_000_000,
                max_scanned_points: 1_000_000,
                max_mismatch_details: 256,
            }),
    {
        ShadowReconcileLimits {
            max_batches: DEFAULT_MAX_RECONCILE_BATCHES,
            max_metadata_records: DEFAULT_MAX_RECONCILE_METADATA,
            max_expected_points: DEFAULT_MAX_RECONCILE_POINTS,
            max_observed_points: DEFAULT_MAX_RECONCILE_POINTS,
            max_scanned_points: DEFAULT_MAX_RECONCILE_SCANNED_POINTS,
            max_mismatch_details: DEFAULT_MAX_RECONCILE_DETAILS,
        }
    }
}

#[derive(Clone, Copy, Debug, PartialEq, Eq, Structural)]
pub enum ReconcileLimit {
    Batches,
    MetadataRecords,
    ExpectedPoints,
    ObservedPoints,
    ScannedPoints,
}

pub open spec fn limit_name(limit: ReconcileLimit) -> Seq<char> {
    match limit {
        ReconcileLimit::Batches => "Batches"@,
        ReconcileLimit::MetadataRecords => "MetadataRecords"@,
        ReconcileLimit::ExpectedPoints => "ExpectedPoints"@,
        ReconcileLimit::ObservedPoints => "ObservedPoints"@,
        ReconcileLimit::ScannedPoints => "ScannedPoints"@,
    }
}

#[derive(Debug, PartialEq, Eq)]
pub enum ShadowReconcileError {
    LimitExceeded { limit: ReconcileLimit, maximum: usize },
    InvalidIdentity(IngressIdentity),
    DuplicateSourceSequence { source_id: u128, sequence: u64 },
    DuplicateCommitId(u128),
    MaximumTimestamp { series_id: u64 },
    Store(Error),
}

/// What a reconciliation error says.
pub open spec fn reconcile_text(error: ShadowReconcileError) -> Seq<char> {
    match error {
        ShadowReconcileError::LimitExceeded { limit, maximum } => "reconciliation "@ + limit_name(
            limit,
        ) + " limit exceeds "@ + decimal(maximum as nat),
        ShadowReconcileError::InvalidIdentity(identity) =>
            "invalid reconciliation identity for source "@ + decimal(identity.source_id as nat)
            + " sequence "@ + decimal(identity.sequence as nat),
        ShadowReconcileError::DuplicateSourceSequence { source_id, sequence } =>
            "duplicate reconciliation source "@ + decimal(source_id as nat) + " sequence "@
            + decimal(sequence as nat),
        ShadowReconcileError::DuplicateCommitId(commit_id) =>
            "duplicate reconciliation commit id "@ + decimal(commit_id as nat),
        ShadowReconcileError::MaximumTimestamp { series_id } => "series "@ + decimal(
            series_id as nat,
        ) + " contains i64::MAX, which has no exclusive query end"@,
        ShadowReconcileError::Store(error) => "could not verify stored ingress bytes: "@
            + error_text(error),
    }
}

impl ShadowReconcileError {
    /// What the error says.
    pub fn message(&self) -> (text: String)
        ensures
            text@ == reconcile_text(*self),
    {
        let mut text = String::new();
        match self {
            ShadowReconcileError::LimitExceeded { limit, maximum } => {
                text.append("reconciliation ");
                match limit {
                    ReconcileLimit::Batches => text.append("Batches"),
                    ReconcileLimit::MetadataRecords => text.append("MetadataRecords"),
                    ReconcileLimit::ExpectedPoints => text.append("ExpectedPoints"),
                    ReconcileLimit::ObservedPoints => text.append("ObservedPoints"),
                    ReconcileLimit::ScannedPoints => text.append("ScannedPoints"),
                }
                text.append(" limit exceeds ");
                put_decimal(&mut text, *maximum as u128);
            },
            ShadowReconcileError::InvalidIdentity(identity) => {
                text.append("invalid reconciliation identity for source ");
                put_decimal(&mut text, identity.source_id);
                text.append(" sequence ");
                put_decimal(&mut text, identity.sequence as u128);
            },
            ShadowReconcileError::DuplicateSourceSequence { source_id, sequence } => {
                text.append("duplicate reconciliation source ");
                put_decimal(&mut text, *source_id);
                text.append(" sequence ");
                put_decimal(&mut text, *sequence as u128);
            },
            ShadowReconcileError::DuplicateCommitId(commit_id) => {
                text.append("duplicate reconciliation commit id ");
                put_decimal(&mut text, *commit_id);
            },
            ShadowReconcileError::MaximumTimestamp { series_id } => {
                text.append("series ");
                put_decimal(&mut text, *series_id as u128);
                text.append(" contains i64::MAX, which has no exclusive query end");
            },
            ShadowReconcileError::Store(error) => {
                text.append("could not verify stored ingress bytes: ");
                let message = error.message();
                text.append(message.as_str());
            },
        }
        assert(text@ =~= reconcile_text(*self));
        text
    }
}

#[derive(Clone, Copy, Debug, PartialEq, Eq, Structural)]
pub enum CatalogObjectKind {
    Entity,
    Relation,
    Series,
    Run,
    Plan,
}

#[derive(Clone, Copy, Debug, PartialEq, Eq, Structural)]
pub enum CatalogMismatch {
    Missing,
    Different,
}

#[allow(inconsistent_fields)]
#[derive(Clone, Copy, Debug, PartialEq, Eq, Structural)]
pub enum ShadowReconcileDetail {
    MissingReceipt { identity: IngressIdentity },
    ReceiptCommitConflict { expected: IngressIdentity, actual_commit_id: u128 },
    ReceiptShapeMismatch {
        identity: IngressIdentity,
        expected_records: usize,
        actual_records: usize,
        expected_points: usize,
        actual_points: usize,
    },
    ReceiptPayloadMismatch { identity: IngressIdentity },
    Catalog { kind: CatalogObjectKind, id: u128, mismatch: CatalogMismatch },
    PointCount { point: ShadowPointKey, expected: usize, actual: usize },
}

/// Stable counts plus a bounded sample of mismatches.
#[derive(Debug, PartialEq, Eq)]
pub struct ShadowReconciliationReport {
    pub expected_batches: usize,
    pub matching_receipts: usize,
    pub missing_receipts: usize,
    pub conflicting_receipts: usize,
    pub receipt_shape_mismatches: usize,
    pub receipt_payload_mismatches: usize,
    pub nondurable_receipts: usize,
    pub expected_catalog_objects: usize,
    pub matching_catalog_objects: usize,
    pub missing_catalog_objects: usize,
    pub different_catalog_objects: usize,
    pub expected_points: usize,
    /// Raw entries visited before timestamp filtering.
    pub scanned_points: usize,
    pub observed_points: usize,
    pub matching_points: usize,
    pub missing_points: usize,
    pub unexpected_points: usize,
    pub mismatch_groups: usize,
    pub mismatch_details: Vec<ShadowReconcileDetail>,
    pub details_truncated: bool,
}

/// What a report holds.
#[verifier::ext_equal]
pub struct ReportModel {
    pub expected_batches: usize,
    pub matching_receipts: usize,
    pub missing_receipts: usize,
    pub conflicting_receipts: usize,
    pub receipt_shape_mismatches: usize,
    pub receipt_payload_mismatches: usize,
    pub nondurable_receipts: usize,
    pub expected_catalog_objects: usize,
    pub matching_catalog_objects: usize,
    pub missing_catalog_objects: usize,
    pub different_catalog_objects: usize,
    pub expected_points: usize,
    pub scanned_points: usize,
    pub observed_points: usize,
    pub matching_points: usize,
    pub missing_points: usize,
    pub unexpected_points: usize,
    pub mismatch_groups: usize,
    pub mismatch_details: Seq<ShadowReconcileDetail>,
    pub details_truncated: bool,
}

impl View for ShadowReconciliationReport {
    type V = ReportModel;

    open spec fn view(&self) -> ReportModel {
        ReportModel {
            expected_batches: self.expected_batches,
            matching_receipts: self.matching_receipts,
            missing_receipts: self.missing_receipts,
            conflicting_receipts: self.conflicting_receipts,
            receipt_shape_mismatches: self.receipt_shape_mismatches,
            receipt_payload_mismatches: self.receipt_payload_mismatches,
            nondurable_receipts: self.nondurable_receipts,
            expected_catalog_objects: self.expected_catalog_objects,
            matching_catalog_objects: self.matching_catalog_objects,
            missing_catalog_objects: self.missing_catalog_objects,
            different_catalog_objects: self.different_catalog_objects,
            expected_points: self.expected_points,
            scanned_points: self.scanned_points,
            observed_points: self.observed_points,
            matching_points: self.matching_points,
            missing_points: self.missing_points,
            unexpected_points: self.unexpected_points,
            mismatch_groups: self.mismatch_groups,
            mismatch_details: self.mismatch_details@,
            details_truncated: self.details_truncated,
        }
    }
}

/// A report in which nothing has been compared yet.
pub open spec fn blank_report(expected_batches: usize, expected_points: usize) -> ReportModel {
    ReportModel {
        expected_batches,
        matching_receipts: 0,
        missing_receipts: 0,
        conflicting_receipts: 0,
        receipt_shape_mismatches: 0,
        receipt_payload_mismatches: 0,
        nondurable_receipts: 0,
        expected_catalog_objects: 0,
        matching_catalog_objects: 0,
        missing_catalog_objects: 0,
        different_catalog_objects: 0,
        expected_points,
        scanned_points: 0,
        observed_points: 0,
        matching_points: 0,
        missing_points: 0,
        unexpected_points: 0,
        mismatch_groups: 0,
        mismatch_details: Seq::empty(),
        details_truncated: false,
    }
}

impl Default for ShadowReconciliationReport {
    fn default() -> (report: Self)
        ensures
            report@ == blank_report(0, 0),
    {
        let report = ShadowReconciliationReport {
            expected_batches: 0,
            matching_receipts: 0,
            missing_receipts: 0,
            conflicting_receipts: 0,
            receipt_shape_mismatches: 0,
            receipt_payload_mismatches: 0,
            nondurable_receipts: 0,
            expected_catalog_objects: 0,
            matching_catalog_objects: 0,
            missing_catalog_objects: 0,
            different_catalog_objects: 0,
            expected_points: 0,
            scanned_points: 0,
            observed_points: 0,
            matching_points: 0,
            missing_points: 0,
            unexpected_points: 0,
            mismatch_groups: 0,
            mismatch_details: Vec::new(),
            details_truncated: false,
        };
        assert(report@ =~= blank_report(0, 0));
        report
    }
}

/// Whether all expected receipts and data match.
pub open spec fn all_content_matches(r: ReportModel) -> bool {
    &&& r.missing_receipts == 0
    &&& r.conflicting_receipts == 0
    &&& r.receipt_shape_mismatches == 0
    &&& r.receipt_payload_mismatches == 0
    &&& r.missing_catalog_objects == 0
    &&& r.different_catalog_objects == 0
    &&& r.missing_points == 0
    &&& r.unexpected_points == 0
}

impl ShadowReconciliationReport {
    /// True when all expected receipts and data match. Durability is separate.
    pub fn content_matches(&self) -> (yes: bool)
        ensures
            yes == all_content_matches(self@),
    {
        self.missing_receipts == 0 && self.conflicting_receipts == 0
            && self.receipt_shape_mismatches == 0 && self.receipt_payload_mismatches == 0
            && self.missing_catalog_objects == 0 && self.different_catalog_objects == 0
            && self.missing_points == 0 && self.unexpected_points == 0
    }

    /// True when content matches and every found receipt has a sync proof.
    pub fn ready_to_release_source_copy(&self) -> (yes: bool)
        ensures
            yes == (all_content_matches(self@) && self.nondurable_receipts == 0),
    {
        self.content_matches() && self.nondurable_receipts == 0
    }
}

/// A count with `by` added to it. Counts stop at the largest count.
pub open spec fn raised(count: usize, by: nat) -> usize {
    if count + by > usize::MAX {
        usize::MAX
    } else {
        (count + by) as usize
    }
}

/// A report with one more mismatch. Details beyond the limit are only counted.
pub open spec fn noted(r: ReportModel, max_details: usize, detail: ShadowReconcileDetail) -> ReportModel {
    ReportModel {
        mismatch_groups: raised(r.mismatch_groups, 1),
        mismatch_details: if r.mismatch_details.len() < max_details {
            r.mismatch_details.push(detail)
        } else {
            r.mismatch_details
        },
        ..r
    }
}

fn record_detail(
    report: &mut ShadowReconciliationReport,
    limits: &ShadowReconcileLimits,
    detail: ShadowReconcileDetail,
)
    ensures
        final(report)@ == noted(old(report)@, limits.max_mismatch_details, detail),
{
    report.mismatch_groups = report.mismatch_groups.saturating_add(1);
    if report.mismatch_details.len() < limits.max_mismatch_details {
        report.mismatch_details.push(detail);
    }
}

/// How many catalog records a batch carries.
pub open spec fn metadata_of(b: BatchModel) -> nat {
    b.entities.len() + b.relations.len() + b.series.len() + b.runs.len() + b.plans.len()
}

/// Whether the records of a batch can be counted.
pub open spec fn countable(b: BatchModel) -> bool {
    metadata_of(b) < usize::MAX
}

fn metadata_count(batch: &CommitBatchRequest) -> (n: usize)
    requires
        countable(batch.deep_view()),
    ensures
        n == metadata_of(batch.deep_view()),
{
    batch.entities.len() + batch.relations.len() + batch.series.len() + batch.runs.len()
        + batch.plans.len()
}

pub open spec fn identity_of(b: BatchModel) -> IngressIdentity {
    IngressIdentity { source_id: b.source_id, sequence: b.sequence, commit_id: b.commit_id }
}

/// The models of some batches.
pub open spec fn batch_models(batches: Seq<CommitBatchRequest>) -> Seq<BatchModel> {
    Seq::new(batches.len(), |i: int| batches[i].deep_view())
}

pub open spec fn all_countable(batches: Seq<BatchModel>) -> bool {
    forall|i: int| 0 <= i < batches.len() ==> countable(#[trigger] batches[i])
}

/// How many catalog records and points the first `n` batches carry, or the first
/// fault among them.
pub open spec fn preflight(
    batches: Seq<BatchModel>,
    limits: ShadowReconcileLimits,
    n: nat,
) -> Result<(nat, nat), ShadowReconcileError>
    decreases n,
{
    if n == 0 {
        Ok((0, 0))
    } else {
        match preflight(batches, limits, (n - 1) as nat) {
            Err(error) => Err(error),
            Ok((metadata, points)) => {
                let b = batches[n - 1];
                if b.source_id == 0 {
                    Err(ShadowReconcileError::InvalidIdentity(identity_of(b)))
                } else if exists|j: int|
                    0 <= j < n - 1 && (#[trigger] batches[j]).source_id == b.source_id
                        && batches[j].sequence == b.sequence {
                    Err(
                        ShadowReconcileError::DuplicateSourceSequence {
                            source_id: b.source_id,
                            sequence: b.sequence,
                        },
                    )
                } else if exists|j: int|
                    0 <= j < n - 1 && (#[trigger] batches[j]).commit_id == b.commit_id {
                    Err(ShadowReconcileError::DuplicateCommitId(b.commit_id))
                } else if metadata + metadata_of(b) > usize::MAX {
                    Err(
                        ShadowReconcileError::LimitExceeded {
                            limit: ReconcileLimit::MetadataRecords,
                            maximum: limits.max_metadata_records,
                        },
                    )
                } else if points + b.points.len() > usize::MAX {
                    Err(
                        ShadowReconcileError::LimitExceeded {
                            limit: ReconcileLimit::ExpectedPoints,
                            maximum: limits.max_expected_points,
                        },
                    )
                } else {
                    Ok((metadata + metadata_of(b), points + b.points.len()))
                }
            },
        }
    }
}

/// How many points a window expects, or why it cannot be compared.
pub open spec fn window_check(batches: Seq<BatchModel>, limits: ShadowReconcileLimits) -> Result<
    nat,
    ShadowReconcileError,
> {
    if batches.len() > limits.max_batches {
        Err(
            ShadowReconcileError::LimitExceeded {
                limit: ReconcileLimit::Batches,
                maximum: limits.max_batches,
            },
        )
    } else {
        match preflight(batches, limits, batches.len()) {
            Err(error) => Err(error),
            Ok((metadata, points)) => if metadata > limits.max_metadata_records {
                Err(
                    ShadowReconcileError::LimitExceeded {
                        limit: ReconcileLimit::MetadataRecords,
                        maximum: limits.max_metadata_records,
                    },
                )
            } else if points > limits.max_expected_points {
                Err(
                    ShadowReconcileError::LimitExceeded {
                        limit: ReconcileLimit::ExpectedPoints,
                        maximum: limits.max_expected_points,
                    },
                )
            } else {
                Ok(points)
            },
        }
    }
}

proof fn lemma_preflight_fault(batches: Seq<BatchModel>, limits: ShadowReconcileLimits, n: nat, m: nat)
    requires
        n <= m,
        preflight(batches, limits, n) is Err,
    ensures
        preflight(batches, limits, m) == preflight(batches, limits, n),
    decreases m,
{
    if n < m {
        lemma_preflight_fault(batches, limits, n, (m - 1) as nat);
    }
}

fn check_limit(actual: usize, maximum: usize, limit: ReconcileLimit) -> (outcome: Result<
    (),
    ShadowReconcileError,
>)
    ensures
        outcome == if actual > maximum {
            Err::<(), ShadowReconcileError>(ShadowReconcileError::LimitExceeded { limit, maximum })
        } else {
            Ok::<(), ShadowReconcileError>(())
        },
{
    if actual > maximum {
        Err(ShadowReconcileError::LimitExceeded { limit, maximum })
    } else {
        Ok(())
    }
}

/// Checks a window before anything is read from the store, and counts its points.
#[verifier::loop_isolation(false)]
pub fn check_window(expected: &[CommitBatchRequest], limits: &ShadowReconcileLimits) -> (outcome:
    Result<usize, ShadowReconcileError>)
    requires
        all_countable(batch_models(expected@)),
    ensures
        match window_check(batch_models(expected@), *limits) {
            Ok(points) => outcome matches Ok(n) && n == points,
            Err(error) => outcome == Err::<usize, ShadowReconcileError>(error),
        },
{
    broadcast use group_btree_axioms;

    let ghost models = batch_models(expected@);
    check_limit(expected.len(), limits.max_batches, ReconcileLimit::Batches)?;
    let mut source_sequences: BTreeSet<(u128, u64)> = BTreeSet::new();
    let mut commit_ids: BTreeSet<u128> = BTreeSet::new();
    let mut metadata: usize = 0;
    let mut points: usize = 0;
    let mut i: usize = 0;
    while i < expected.len()
        invariant
            i <= expected@.len(),
            forall|s: u128, q: u64| #[trigger]
                source_sequences@.contains((s, q)) <==> exists|j: int|
                    0 <= j < i && (#[trigger] models[j]).source_id == s && models[j].sequence == q,
            forall|c: u128| #[trigger]
                commit_ids@.contains(c) <==> exists|j: int|
                    0 <= j < i && (#[trigger] models[j]).commit_id == c,
            preflight(models, *limits, i as nat) == Ok::<(nat, nat), ShadowReconcileError>(
                (metadata as nat, points as nat),
            ),
        decreases expected@.len() - i,
    {
        let batch = &expected[i];
        let ghost b = batch.deep_view();
        proof {
            assert(models[i as int] == b);
            assert(b.points.len() == batch.points@.len());
            if preflight(models, *limits, (i + 1) as nat) is Err {
                lemma_preflight_fault(models, *limits, (i + 1) as nat, models.len());
            }
        }
        if batch.source_id == 0 {
            return Err(
                ShadowReconcileError::InvalidIdentity(
                    IngressIdentity {
                        source_id: batch.source_id,
                        sequence: batch.sequence,
                        commit_id: batch.commit_id,
                    },
                ),
            );
        }
        let ghost seen = source_sequences@;
        let ghost ids = commit_ids@;
        if !insert_pair(&mut source_sequences, batch.source_id, batch.sequence) {
            return Err(
                ShadowReconcileError::DuplicateSourceSequence {
                    source_id: batch.source_id,
                    sequence: batch.sequence,
                },
            );
        }
        if commit_ids.contains(&batch.commit_id) {
            return Err(ShadowReconcileError::DuplicateCommitId(batch.commit_id));
        }
        commit_ids.insert(batch.commit_id);
        metadata = match metadata.checked_add(metadata_count(batch)) {
            Some(total) => total,
            None => {
                return Err(
                    ShadowReconcileError::LimitExceeded {
                        limit: ReconcileLimit::MetadataRecords,
                        maximum: limits.max_metadata_records,
                    },
                );
            },
        };
        points = match points.checked_add(batch.points.len()) {
            Some(total) => total,
            None => {
                return Err(
                    ShadowReconcileError::LimitExceeded {
                        limit: ReconcileLimit::ExpectedPoints,
                        maximum: limits.max_expected_points,
                    },
                );
            },
        };
        proof {
            assert forall|s: u128, q: u64| #[trigger]
                source_sequences@.contains((s, q)) <==> exists|j: int|
                    0 <= j < i + 1 && (#[trigger] models[j]).source_id == s && models[j].sequence
                        == q by {
                if s == b.source_id && q == b.sequence {
                    assert(models[i as int].source_id == s);
                } else {
                    assert(source_sequences@.contains((s, q)) == seen.contains((s, q)));
                }
            }
            assert forall|c: u128| #[trigger]
                commit_ids@.contains(c) <==> exists|j: int|
                    0 <= j < i + 1 && (#[trigger] models[j]).commit_id == c by {
                if c == b.commit_id {
                    assert(models[i as int].commit_id == c);
                } else {
                    assert(commit_ids@.contains(c) == ids.contains(c));
                }
            }
        }
        i = i + 1;
    }
    check_limit(metadata, limits.max_metadata_records, ReconcileLimit::MetadataRecords)?;
    check_limit(points, limits.max_expected_points, ReconcileLimit::ExpectedPoints)?;
    Ok(points)
}

/// What the store says of the receipt for one source sequence.
#[derive(Clone, Copy, Debug, PartialEq, Eq, Structural)]
pub struct StoredReceipt {
    pub commit_id: u128,
    pub records: usize,
    pub points: usize,
    pub durable: bool,
    /// Whether the stored transaction is byte for byte that of the batch. It is
    /// looked at only where the commit identifiers agree.
    pub payload_matches: bool,
}

/// How many records the transaction of a batch has.
pub open spec fn records_of(b: BatchModel) -> nat {
    metadata_of(b) + if b.points.len() > 0 {
        1nat
    } else {
        0nat
    }
}

pub open spec fn shape_differs(b: BatchModel, receipt: StoredReceipt) -> bool {
    receipt.records != records_of(b) || receipt.points != b.points.len()
}

/// A report after one receipt has been compared.
pub open spec fn after_receipt(
    r: ReportModel,
    max_details: usize,
    b: BatchModel,
    found: Option<StoredReceipt>,
) -> ReportModel {
    match found {
        None => noted(
            ReportModel { missing_receipts: raised(r.missing_receipts, 1), ..r },
            max_details,
            ShadowReconcileDetail::MissingReceipt { identity: identity_of(b) },
        ),
        Some(receipt) => {
            let r1 = if receipt.durable {
                r
            } else {
                ReportModel { nondurable_receipts: raised(r.nondurable_receipts, 1), ..r }
            };
            let r2 = if receipt.commit_id == b.commit_id {
                r1
            } else {
                noted(
                    ReportModel { conflicting_receipts: raised(r1.conflicting_receipts, 1), ..r1 },
                    max_details,
                    ShadowReconcileDetail::ReceiptCommitConflict {
                        expected: identity_of(b),
                        actual_commit_id: receipt.commit_id,
                    },
                )
            };
            let r3 = if !shape_differs(b, receipt) {
                r2
            } else {
                noted(
                    ReportModel {
                        receipt_shape_mismatches: raised(r2.receipt_shape_mismatches, 1),
                        ..r2
                    },
                    max_details,
                    ShadowReconcileDetail::ReceiptShapeMismatch {
                        identity: identity_of(b),
                        expected_records: records_of(b) as usize,
                        actual_records: receipt.records,
                        expected_points: b.points.len() as usize,
                        actual_points: receipt.points,
                    },
                )
            };
            if receipt.commit_id == b.commit_id && !receipt.payload_matches {
                noted(
                    ReportModel {
                        receipt_payload_mismatches: raised(r3.receipt_payload_mismatches, 1),
                        ..r3
                    },
                    max_details,
                    ShadowReconcileDetail::ReceiptPayloadMismatch { identity: identity_of(b) },
                )
            } else if receipt.commit_id == b.commit_id && !shape_differs(b, receipt) {
                ReportModel { matching_receipts: raised(r3.matching_receipts, 1), ..r3 }
            } else {
                r3
            }
        },
    }
}

/// A report after the receipts of some batches have been compared.
pub open spec fn after_receipts(
    r: ReportModel,
    max_details: usize,
    batches: Seq<BatchModel>,
    found: Seq<Option<StoredReceipt>>,
) -> ReportModel
    decreases batches.len(),
{
    if batches.len() == 0 {
        r
    } else {
        after_receipt(
            after_receipts(r, max_details, batches.drop_last(), found.drop_last()),
            max_details,
            batches.last(),
            found.last(),
        )
    }
}

fn reconcile_receipt(
    batch: &CommitBatchRequest,
    found: Option<StoredReceipt>,
    limits: &ShadowReconcileLimits,
    report: &mut ShadowReconciliationReport,
)
    requires
        countable(batch.deep_view()),
    ensures
        final(report)@ == after_receipt(
            old(report)@,
            limits.max_mismatch_details,
            batch.deep_view(),
            found,
        ),
{
    let ghost b = batch.deep_view();
    let identity = IngressIdentity {
        source_id: batch.source_id,
        sequence: batch.sequence,
        commit_id: batch.commit_id,
    };
    let points: usize = batch.points.len();
    assert(b.points.len() == points);
    let records: usize = if points > 0 {
        metadata_count(batch) + 1
    } else {
        metadata_count(batch)
    };
    match found {
        None => {
            report.missing_receipts = report.missing_receipts.saturating_add(1);
            record_detail(report, limits, ShadowReconcileDetail::MissingReceipt { identity });
        },
        Some(receipt) => {
            if !receipt.durable {
                report.nondurable_receipts = report.nondurable_receipts.saturating_add(1);
            }
            let mut matches: bool = true;
            let commit_id_matches: bool = receipt.commit_id == batch.commit_id;
            if !commit_id_matches {
                matches = false;
                report.conflicting_receipts = report.conflicting_receipts.saturating_add(1);
                record_detail(
                    report,
                    limits,
                    ShadowReconcileDetail::ReceiptCommitConflict {
                        expected: identity,
                        actual_commit_id: receipt.commit_id,
                    },
                );
            }
            if receipt.records != records || receipt.points != points {
                matches = false;
                report.receipt_shape_mismatches = report.receipt_shape_mismatches.saturating_add(1);
                record_detail(
                    report,
                    limits,
                    ShadowReconcileDetail::ReceiptShapeMismatch {
                        identity,
                        expected_records: records,
                        actual_records: receipt.records,
                        expected_points: points,
                        actual_points: receipt.points,
                    },
                );
            }
            if commit_id_matches && !receipt.payload_matches {
                matches = false;
                report.receipt_payload_mismatches =
                report.receipt_payload_mismatches.saturating_add(1);
                record_detail(
                    report,
                    limits,
                    ShadowReconcileDetail::ReceiptPayloadMismatch { identity },
                );
            }
            if matches {
                report.matching_receipts = report.matching_receipts.saturating_add(1);
            }
        },
    }
}

/// Compares the receipt of each batch with what the store found for it.
#[verifier::loop_isolation(false)]
pub fn reconcile_receipts(
    expected: &[CommitBatchRequest],
    found: &[Option<StoredReceipt>],
    limits: &ShadowReconcileLimits,
    report: &mut ShadowReconciliationReport,
)
    requires
        all_countable(batch_models(expected@)),
        expected@.len() == found@.len(),
    ensures
        final(report)@ == after_receipts(
            old(report)@,
            limits.max_mismatch_details,
            batch_models(expected@),
            found@,
        ),
{
    let ghost models = batch_models(expected@);
    let ghost start = report@;
    let mut i: usize = 0;
    while i < expected.len()
        invariant
            i <= expected@.len(),
            report@ == after_receipts(
                start,
                limits.max_mismatch_details,
                models.take(i as int),
                found@.take(i as int),
            ),
        decreases expected@.len() - i,
    {
        assert(countable(models[i as int]));
        reconcile_receipt(&expected[i], found[i], limits, report);
        proof {
            assert(models.take(i + 1).drop_last() =~= models.take(i as int));
            assert(found@.take(i + 1).drop_last() =~= found@.take(i as int));
            assert(models.take(i + 1).last() == expected@[i as int].deep_view());
        }
        i = i + 1;
    }
    assert(models.take(i as int) =~= models);
    assert(found@.take(i as int) =~= found@);
}

/// How a catalog object compares with what was expected.
#[derive(Clone, Copy, Debug, PartialEq, Eq, Structural)]
pub enum Verdict {
    Same,
    Different,
    Missing,
}

/// A report after one catalog object has been compared.
pub open spec fn after_verdict(
    r: ReportModel,
    max_details: usize,
    kind: CatalogObjectKind,
    id: u128,
    verdict: Verdict,
) -> ReportModel {
    match verdict {
        Verdict::Same => ReportModel {
            matching_catalog_objects: raised(r.matching_catalog_objects, 1),
            ..r
        },
        Verdict::Different => noted(
            ReportModel {
                different_catalog_objects: raised(r.different_catalog_objects, 1),
                ..r
            },
            max_details,
            ShadowReconcileDetail::Catalog { kind, id, mismatch: CatalogMismatch::Different },
        ),
        Verdict::Missing => noted(
            ReportModel { missing_catalog_objects: raised(r.missing_catalog_objects, 1), ..r },
            max_details,
            ShadowReconcileDetail::Catalog { kind, id, mismatch: CatalogMismatch::Missing },
        ),
    }
}

/// A report after the catalog objects under some identifiers have been compared.
pub open spec fn after_verdicts(
    r: ReportModel,
    max_details: usize,
    kind: CatalogObjectKind,
    ids: Seq<u128>,
    verdict: spec_fn(u128) -> Verdict,
) -> ReportModel
    decreases ids.len(),
{
    if ids.len() == 0 {
        r
    } else {
        after_verdict(
            after_verdicts(r, max_details, kind, ids.drop_last(), verdict),
            max_details,
            kind,
            ids.last(),
            verdict(ids.last()),
        )
    }
}

fn note_verdict(
    report: &mut ShadowReconciliationReport,
    limits: &ShadowReconcileLimits,
    kind: CatalogObjectKind,
    id: u128,
    verdict: Verdict,
)
    ensures
        final(report)@ == after_verdict(
            old(report)@,
            limits.max_mismatch_details,
            kind,
            id,
            verdict,
        ),
{
    match verdict {
        Verdict::Same => {
            report.matching_catalog_objects = report.matching_catalog_objects.saturating_add(1);
        },
        Verdict::Different => {
            report.different_catalog_objects = report.different_catalog_objects.saturating_add(1);
            record_detail(
                report,
                limits,
                ShadowReconcileDetail::Catalog { kind, id, mismatch: CatalogMismatch::Different },
            );
        },
        Verdict::Missing => {
            report.missing_catalog_objects = report.missing_catalog_objects.saturating_add(1);
            record_detail(
                report,
                limits,
                ShadowReconcileDetail::Catalog { kind, id, mismatch: CatalogMismatch::Missing },
            );
        },
    }
}

pub open spec fn put_entities(m: Map<u128, EntityModel>, list: Seq<EntityModel>) -> Map<
    u128,
    EntityModel,
>
    decreases list.len(),
{
    if list.len() == 0 {
        m
    } else {
        put_entities(m, list.drop_last()).insert(list.last().id.0, list.last())
    }
}

/// The last supplied form of each entity.
pub open spec fn last_entities(batches: Seq<BatchModel>) -> Map<u128, EntityModel>
    decreases batches.len(),
{
    if batches.len() == 0 {
        Map::empty()
    } else {
        put_entities(last_entities(batches.drop_last()), batches.last().entities)
    }
}

pub open spec fn put_relations(m: Map<u128, RelationModel>, list: Seq<RelationModel>) -> Map<
    u128,
    RelationModel,
>
    decreases list.len(),
{
    if list.len() == 0 {
        m
    } else {
        put_relations(m, list.drop_last()).insert(list.last().id.0, list.last())
    }
}

/// The last supplied form of each relation.
pub open spec fn last_relations(batches: Seq<BatchModel>) -> Map<u128, RelationModel>
    decreases batches.len(),
{
    if batches.len() == 0 {
        Map::empty()
    } else {
        put_relations(last_relations(batches.drop_last()), batches.last().relations)
    }
}

pub open spec fn put_series(m: Map<u128, SeriesModel>, list: Seq<SeriesModel>) -> Map<
    u128,
    SeriesModel,
>
    decreases list.len(),
{
    if list.len() == 0 {
        m
    } else {
        put_series(m, list.drop_last()).insert(list.last().id as u128, list.last())
    }
}

/// The last supplied form of each series.
pub open spec fn last_series(batches: Seq<BatchModel>) -> Map<u128, SeriesModel>
    decreases batches.len(),
{
    if batches.len() == 0 {
        Map::empty()
    } else {
        put_series(last_series(batches.drop_last()), batches.last().series)
    }
}

pub open spec fn put_runs(m: Map<u128, RunModel>, list: Seq<RunModel>) -> Map<u128, RunModel>
    decreases list.len(),
{
    if list.len() == 0 {
        m
    } else {
        put_runs(m, list.drop_last()).insert(list.last().id.0, list.last())
    }
}

/// The last supplied form of each run.
pub open spec fn last_runs(batches: Seq<BatchModel>) -> Map<u128, RunModel>
    decreases batches.len(),
{
    if batches.len() == 0 {
        Map::empty()
    } else {
        put_runs(last_runs(batches.drop_last()), batches.last().runs)
    }
}

pub open spec fn put_plans(m: Map<u128, PlanModel>, list: Seq<PlanModel>) -> Map<u128, PlanModel>
    decreases list.len(),
{
    if list.len() == 0 {
        m
    } else {
        put_plans(m, list.drop_last()).insert(list.last().id, list.last())
    }
}

/// The last supplied form of each plan.
pub open spec fn last_plans(batches: Seq<BatchModel>) -> Map<u128, PlanModel>
    decreases batches.len(),
{
    if batches.len() == 0 {
        Map::empty()
    } else {
        put_plans(last_plans(batches.drop_last()), batches.last().plans)
    }
}

pub open spec fn verdict_of(there: bool, same: bool) -> Verdict {
    if !there {
        Verdict::Missing
    } else if same {
        Verdict::Same
    } else {
        Verdict::Different
    }
}

fn give_verdict(there: bool, same: bool) -> (verdict: Verdict)
    ensures
        verdict == verdict_of(there, same),
{
    if !there {
        Verdict::Missing
    } else if same {
        Verdict::Same
    } else {
        Verdict::Different
    }
}

/// How many catalog objects a window expects.
pub open spec fn objects_expected(batches: Seq<BatchModel>) -> nat {
    last_entities(batches).dom().len() + last_relations(batches).dom().len() + last_series(
        batches,
    ).dom().len() + last_runs(batches).dom().len() + last_plans(batches).dom().len()
}

/// A report after the catalog has been compared: entities, relations, series, runs
/// and plans, each by ascending identifier.
pub open spec fn after_catalog(
    r: ReportModel,
    max: usize,
    batches: Seq<BatchModel>,
    c: CatalogModel,
) -> ReportModel {
    let r0 = ReportModel { expected_catalog_objects: raised(0, objects_expected(batches)), ..r };
    let entities = last_entities(batches);
    let r1 = after_verdicts(
        r0,
        max,
        CatalogObjectKind::Entity,
        sorted_ids(entities.dom()),
        |id: u128| verdict_of(c.entities.contains_key(id), same_entity(c.entities[id], entities[id])),
    );
    let relations = last_relations(batches);
    let r2 = after_verdicts(
        r1,
        max,
        CatalogObjectKind::Relation,
        sorted_ids(relations.dom()),
        |id: u128|
            verdict_of(
                c.relations.contains_key(id),
                same_relation(c.relations[id], relations[id]),
            ),
    );
    let series = last_series(batches);
    let r3 = after_verdicts(
        r2,
        max,
        CatalogObjectKind::Series,
        sorted_ids(series.dom()),
        |id: u128|
            verdict_of(c.series.contains_key(id as u64), c.series[id as u64] == series[id]),
    );
    let runs = last_runs(batches);
    let r4 = after_verdicts(
        r3,
        max,
        CatalogObjectKind::Run,
        sorted_ids(runs.dom()),
        |id: u128| verdict_of(c.runs.contains_key(id), same_run(c.runs[id], runs[id])),
    );
    let plans = last_plans(batches);
    after_verdicts(
        r4,
        max,
        CatalogObjectKind::Plan,
        sorted_ids(plans.dom()),
        |id: u128| verdict_of(c.plans.contains_key(id), same_plan(c.plans[id], plans[id])),
    )
}

#[verifier::loop_isolation(false)]
fn gather_entities<'a>(expected: &'a [CommitBatchRequest]) -> (map: BTreeMap<u128, &'a Entity>)
    ensures
        map@.map_values(|v: &Entity| v.deep_view()) == last_entities(batch_models(expected@)),
{
    broadcast use group_btree_axioms;

    let ghost models = batch_models(expected@);
    let mut map: BTreeMap<u128, &'a Entity> = BTreeMap::new();
    let mut i: usize = 0;
    assert(map@.map_values(|v: &Entity| v.deep_view()) =~= last_entities(models.take(0)));
    while i < expected.len()
        invariant
            i <= expected@.len(),
            map@.map_values(|v: &Entity| v.deep_view()) == last_entities(models.take(i as int)),
        decreases expected@.len() - i,
    {
        let list = &expected[i].entities;
        let ghost before = last_entities(models.take(i as int));
        let ghost forms = list.deep_view();
        let mut k: usize = 0;
        assert(forms.take(0) =~= Seq::<EntityModel>::empty());
        while k < list.len()
            invariant
                k <= list@.len(),
                forms == list.deep_view(),
                map@.map_values(|v: &Entity| v.deep_view()) == put_entities(
                    before,
                    forms.take(k as int),
                ),
            decreases list@.len() - k,
        {
            let value = &list[k];
            let ghost held = map@;
            map.insert(value.id.0, value);
            proof {
                assert(forms[k as int] == value.deep_view());
                assert(forms.take(k + 1).drop_last() =~= forms.take(k as int));
                assert(map@.map_values(|v: &Entity| v.deep_view()) =~= held.map_values(
                    |v: &Entity| v.deep_view(),
                ).insert(value.id.0, value.deep_view()));
            }
            k = k + 1;
        }
        proof {
            assert(forms.take(k as int) =~= forms);
            assert(models.take(i + 1).drop_last() =~= models.take(i as int));
            assert(models.take(i + 1).last() == expected@[i as int].deep_view());
        }
        i = i + 1;
    }
    assert(models.take(i as int) =~= models);
    map
}

#[verifier::loop_isolation(false)]
fn compare_entities(
    map: &BTreeMap<u128, &Entity>,
    catalog: &Catalog,
    limits: &ShadowReconcileLimits,
    report: &mut ShadowReconciliationReport,
)
    ensures
        ({
            let expected = map@.map_values(|v: &Entity| v.deep_view());
            let c = catalog.model();
            final(report)@ == after_verdicts(
                old(report)@,
                limits.max_mismatch_details,
                CatalogObjectKind::Entity,
                sorted_ids(expected.dom()),
                |id: u128|
                    verdict_of(
                        c.entities.contains_key(id),
                        same_entity(c.entities[id], expected[id]),
                    ),
            )
        }),
{
    broadcast use group_btree_axioms;

    let ghost expected = map@.map_values(|v: &Entity| v.deep_view());
    let ghost c = catalog.model();
    let ghost rule = |id: u128|
        verdict_of(c.entities.contains_key(id), same_entity(c.entities[id], expected[id]));
    let ghost start = report@;
    let keys = u128_keys(map);
    proof {
        assert(ascending_ids(keys@, expected.dom())) by {
            assert forall|k: u128| #[trigger] keys@.contains(k) <==> expected.dom().contains(k) by {
                assert(keys@.contains(k) <==> map@.contains_key(k));
            }
        }
        lemma_sorted(keys@, expected.dom());
    }
    let mut i: usize = 0;
    assert(keys@.take(0) =~= Seq::<u128>::empty());
    while i < keys.len()
        invariant
            i <= keys@.len(),
            report@ == after_verdicts(
                start,
                limits.max_mismatch_details,
                CatalogObjectKind::Entity,
                keys@.take(i as int),
                rule,
            ),
        decreases keys@.len() - i,
    {
        let id: u128 = keys[i];
        assert(keys@.contains(id));
        if let Some(wanted) = map.get(&id) {
            assert(expected[id] == wanted.deep_view());
            let verdict: Verdict = match catalog.entity(EntityId(id)) {
                Some(actual) => give_verdict(true, entities_are_same(actual, wanted)),
                None => give_verdict(false, false),
            };
            assert(verdict == rule(id));
            note_verdict(report, limits, CatalogObjectKind::Entity, id, verdict);
        }
        proof {
            assert(keys@.take(i + 1).drop_last() =~= keys@.take(i as int));
            assert(keys@.take(i + 1).last() == id);
        }
        i = i + 1;
    }
    assert(keys@.take(i as int) =~= keys@);
}

#[verifier::loop_isolation(false)]
fn gather_relations<'a>(expected: &'a [CommitBatchRequest]) -> (map: BTreeMap<u128, &'a Relation>)
    ensures
        map@.map_values(|v: &Relation| v.deep_view()) == last_relations(batch_models(expected@)),
{
    broadcast use group_btree_axioms;

    let ghost models = batch_models(expected@);
    let mut map: BTreeMap<u128, &'a Relation> = BTreeMap::new();
    let mut i: usize = 0;
    assert(map@.map_values(|v: &Relation| v.deep_view()) =~= last_relations(models.take(0)));
    while i < expected.len()
        invariant
            i <= expected@.len(),
            map@.map_values(|v: &Relation| v.deep_view()) == last_relations(models.take(i as int)),
        decreases expected@.len() - i,
    {
        let list = &expected[i].relations;
        let ghost before = last_relations(models.take(i as int));
        let ghost forms = list.deep_view();
        let mut k: usize = 0;
        assert(forms.take(0) =~= Seq::<RelationModel>::empty());
        while k < list.len()
            invariant
                k <= list@.len(),
                forms == list.deep_view(),
                map@.map_values(|v: &Relation| v.deep_view()) == put_relations(
                    before,
                    forms.take(k as int),
                ),
            decreases list@.len() - k,
        {
            let value = &list[k];
            let ghost held = map@;
            map.insert(value.id.0, value);
            proof {
                assert(forms[k as int] == value.deep_view());
                assert(forms.take(k + 1).drop_last() =~= forms.take(k as int));
                assert(map@.map_values(|v: &Relation| v.deep_view()) =~= held.map_values(
                    |v: &Relation| v.deep_view(),
                ).insert(value.id.0, value.deep_view()));
            }
            k = k + 1;
        }
        proof {
            assert(forms.take(k as int) =~= forms);
            assert(models.take(i + 1).drop_last() =~= models.take(i as int));
            assert(models.take(i + 1).last() == expected@[i as int].deep_view());
        }
        i = i + 1;
    }
    assert(models.take(i as int) =~= models);
    map
}

#[verifier::loop_isolation(false)]
fn compare_relations(
    map: &BTreeMap<u128, &Relation>,
    catalog: &Catalog,
    limits: &ShadowReconcileLimits,
    report: &mut ShadowReconciliationReport,
)
    ensures
        ({
            let expected = map@.map_values(|v: &Relation| v.deep_view());
            let c = catalog.model();
            final(report)@ == after_verdicts(
                old(report)@,
                limits.max_mismatch_details,
                CatalogObjectKind::Relation,
                sorted_ids(expected.dom()),
                |id: u128|
                    verdict_of(
                        c.relations.contains_key(id),
                        same_relation(c.relations[id], expected[id]),
                    ),
            )
        }),
{
    broadcast use group_btree_axioms;

    let ghost expected = map@.map_values(|v: &Relation| v.deep_view());
    let ghost c = catalog.model();
    let ghost rule = |id: u128|
        verdict_of(c.relations.contains_key(id), same_relation(c.relations[id], expected[id]));
    let ghost start = report@;
    let keys = u128_keys(map);
    proof {
        assert(ascending_ids(keys@, expected.dom())) by {
            assert forall|k: u128| #[trigger] keys@.contains(k) <==> expected.dom().contains(k) by {
                assert(keys@.contains(k) <==> map@.contains_key(k));
            }
        }
        lemma_sorted(keys@, expected.dom());
    }
    let mut i: usize = 0;
    assert(keys@.take(0) =~= Seq::<u128>::empty());
    while i < keys.len()
        invariant
            i <= keys@.len(),
            report@ == after_verdicts(
                start,
                limits.max_mismatch_details,
                CatalogObjectKind::Relation,
                keys@.take(i as int),
                rule,
            ),
        decreases keys@.len() - i,
    {
        let id: u128 = keys[i];
        assert(keys@.contains(id));
        if let Some(wanted) = map.get(&id) {
            assert(expected[id] == wanted.deep_view());
            let verdict: Verdict = match catalog.relation(RelationId(id)) {
                Some(actual) => give_verdict(true, relations_are_same(actual, wanted)),
                None => give_verdict(false, false),
            };
            assert(verdict == rule(id));
            note_verdict(report, limits, CatalogObjectKind::Relation, id, verdict);
        }
        proof {
            assert(keys@.take(i + 1).drop_last() =~= keys@.take(i as int));
            assert(keys@.take(i + 1).last() == id);
        }
        i = i + 1;
    }
    assert(keys@.take(i as int) =~= keys@);
}

#[verifier::loop_isolation(false)]
fn gather_series<'a>(expected: &'a [CommitBatchRequest]) -> (map: BTreeMap<u128, &'a SeriesDefinition>)
    ensures
        map@.map_values(|v: &SeriesDefinition| v.deep_view()) == last_series(batch_models(expected@)),
{
    broadcast use group_btree_axioms;

    let ghost models = batch_models(expected@);
    let mut map: BTreeMap<u128, &'a SeriesDefinition> = BTreeMap::new();
    let mut i: usize = 0;
    assert(map@.map_values(|v: &SeriesDefinition| v.deep_view()) =~= last_series(models.take(0)));
    while i < expected.len()
        invariant
            i <= expected@.len(),
            map@.map_values(|v: &SeriesDefinition| v.deep_view()) == last_series(models.take(i as int)),
        decreases expected@.len() - i,
    {
        let list = &expected[i].series;
        let ghost before = last_series(models.take(i as int));
        let ghost forms = list.deep_view();
        let mut k: usize = 0;
        assert(forms.take(0) =~= Seq::<SeriesModel>::empty());
        while k < list.len()
            invariant
                k <= list@.len(),
                forms == list.deep_view(),
                map@.map_values(|v: &SeriesDefinition| v.deep_view()) == put_series(
                    before,
                    forms.take(k as int),
                ),
            decreases list@.len() - k,
        {
            let value = &list[k];
            let ghost held = map@;
            map.insert(value.id as u128, value);
            proof {
                assert(forms[k as int] == value.deep_view());
                assert(forms.take(k + 1).drop_last() =~= forms.take(k as int));
                assert(map@.map_values(|v: &SeriesDefinition| v.deep_view()) =~= held.map_values(
                    |v: &SeriesDefinition| v.deep_view(),
                ).insert(value.id as u128, value.deep_view()));
            }
            k = k + 1;
        }
        proof {
            assert(forms.take(k as int) =~= forms);
            assert(models.take(i + 1).drop_last() =~= models.take(i as int));
            assert(models.take(i + 1).last() == expected@[i as int].deep_view());
        }
        i = i + 1;
    }
    assert(models.take(i as int) =~= models);
    map
}

#[verifier::loop_isolation(false)]
fn compare_series(
    map: &BTreeMap<u128, &SeriesDefinition>,
    catalog: &Catalog,
    limits: &ShadowReconcileLimits,
    report: &mut ShadowReconciliationReport,
)
    ensures
        ({
            let expected = map@.map_values(|v: &SeriesDefinition| v.deep_view());
            let c = catalog.model();
            final(report)@ == after_verdicts(
                old(report)@,
                limits.max_mismatch_details,
                CatalogObjectKind::Series,
                sorted_ids(expected.dom()),
                |id: u128|
                    verdict_of(
                        c.series.contains_key(id as u64),
                        c.series[id as u64] == expected[id],
                    ),
            )
        }),
{
    broadcast use group_btree_axioms;

    let ghost expected = map@.map_values(|v: &SeriesDefinition| v.deep_view());
    let ghost c = catalog.model();
    let ghost rule = |id: u128|
        verdict_of(c.series.contains_key(id as u64), c.series[id as u64] == expected[id]);
    let ghost start = report@;
    let keys = u128_keys(map);
    proof {
        assert(ascending_ids(keys@, expected.dom())) by {
            assert forall|k: u128| #[trigger] keys@.contains(k) <==> expected.dom().contains(k) by {
                assert(keys@.contains(k) <==> map@.contains_key(k));
            }
        }
        lemma_sorted(keys@, expected.dom());
    }
    let mut i: usize = 0;
    assert(keys@.take(0) =~= Seq::<u128>::empty());
    while i < keys.len()
        invariant
            i <= keys@.len(),
            report@ == after_verdicts(
                start,
                limits.max_mismatch_details,
                CatalogObjectKind::Series,
                keys@.take(i as int),
                rule,
            ),
        decreases keys@.len() - i,
    {
        let id: u128 = keys[i];
        assert(keys@.contains(id));
        if let Some(wanted) = map.get(&id) {
            assert(expected[id] == wanted.deep_view());
            let verdict: Verdict = match catalog.series(id as u64) {
                Some(actual) => give_verdict(true, series_are_same(actual, wanted)),
                None => give_verdict(false, false),
            };
            assert(verdict == rule(id));
            note_verdict(report, limits, CatalogObjectKind::Series, id, verdict);
        }
        proof {
            assert(keys@.take(i + 1).drop_last() =~= keys@.take(i as int));
            assert(keys@.take(i + 1).last() == id);
        }
        i = i + 1;
    }
    assert(keys@.take(i as int) =~= keys@);
}

#[verifier::loop_isolation(false)]
fn gather_runs<'a>(expected: &'a [CommitBatchRequest]) -> (map: BTreeMap<u128, &'a Run>)
    ensures
        map@.map_values(|v: &Run| v.deep_view()) == last_runs(batch_models(expected@)),
{
    broadcast use group_btree_axioms;

    let ghost models = batch_models(expected@);
    let mut map: BTreeMap<u128, &'a Run> = BTreeMap::new();
    let mut i: usize = 0;
    assert(map@.map_values(|v: &Run| v.deep_view()) =~= last_runs(models.take(0)));
    while i < expected.len()
        invariant
            i <= expected@.len(),
            map@.map_values(|v: &Run| v.deep_view()) == last_runs(models.take(i as int)),
        decreases expected@.len() - i,
    {
        let list = &expected[i].runs;
        let ghost before = last_runs(models.take(i as int));
        let ghost forms = list.deep_view();
        let mut k: usize = 0;
        assert(forms.take(0) =~= Seq::<RunModel>::empty());
        while k < list.len()
            invariant
                k <= list@.len(),
                forms == list.deep_view(),
                map@.map_values(|v: &Run| v.deep_view()) == put_runs(
                    before,
                    forms.take(k as int),
                ),
            decreases list@.len() - k,
        {
            let value = &list[k];
            let ghost held = map@;
            map.insert(value.id.0, value);
            proof {
                assert(forms[k as int] == value.deep_view());
                assert(forms.take(k + 1).drop_last() =~= forms.take(k as int));
                assert(map@.map_values(|v: &Run| v.deep_view()) =~= held.map_values(
                    |v: &Run| v.deep_view(),
                ).insert(value.id.0, value.deep_view()));
            }
            k = k + 1;
        }
        proof {
            assert(forms.take(k as int) =~= forms);
            assert(models.take(i + 1).drop_last() =~= models.take(i as int));
            assert(models.take(i + 1).last() == expected@[i as int].deep_view());
        }
        i = i + 1;
    }
    assert(models.take(i as int) =~= models);
    map
}

#[verifier::loop_isolation(false)]
fn compare_runs(
    map: &BTreeMap<u128, &Run>,
    catalog: &Catalog,
    limits: &ShadowReconcileLimits,
    report: &mut ShadowReconciliationReport,
)
    ensures
        ({
            let expected = map@.map_values(|v: &Run| v.deep_view());
            let c = catalog.model();
            final(report)@ == after_verdicts(
                old(report)@,
                limits.max_mismatch_details,
                CatalogObjectKind::Run,
                sorted_ids(expected.dom()),
                |id: u128|
                    verdict_of(
                        c.runs.contains_key(id),
                        same_run(c.runs[id], expected[id]),
                    ),
            )
        }),
{
    broadcast use group_btree_axioms;

    let ghost expected = map@.map_values(|v: &Run| v.deep_view());
    let ghost c = catalog.model();
    let ghost rule = |id: u128|
        verdict_of(c.runs.contains_key(id), same_run(c.runs[id], expected[id]));
    let ghost start = report@;
    let keys = u128_keys(map);
    proof {
        assert(ascending_ids(keys@, expected.dom())) by {
            assert forall|k: u128| #[trigger] keys@.contains(k) <==> expected.dom().contains(k) by {
                assert(keys@.contains(k) <==> map@.contains_key(k));
            }
        }
        lemma_sorted(keys@, expected.dom());
    }
    let mut i: usize = 0;
    assert(keys@.take(0) =~= Seq::<u128>::empty());
    while i < keys.len()
        invariant
            i <= keys@.len(),
            report@ == after_verdicts(
                start,
                limits.max_mismatch_details,
                CatalogObjectKind::Run,
                keys@.take(i as int),
                rule,
            ),
        decreases keys@.len() - i,
    {
        let id: u128 = keys[i];
        assert(keys@.contains(id));
        if let Some(wanted) = map.get(&id) {
            assert(expected[id] == wanted.deep_view());
            let verdict: Verdict = match catalog.run(RunId(id)) {
                Some(actual) => give_verdict(true, runs_are_same(actual, wanted)),
                None => give_verdict(false, false),
            };
            assert(verdict == rule(id));
            note_verdict(report, limits, CatalogObjectKind::Run, id, verdict);
        }
        proof {
            assert(keys@.take(i + 1).drop_last() =~= keys@.take(i as int));
            assert(keys@.take(i + 1).last() == id);
        }
        i = i + 1;
    }
    assert(keys@.take(i as int) =~= keys@);
}

#[verifier::loop_isolation(false)]
fn gather_plans<'a>(expected: &'a [CommitBatchRequest]) -> (map: BTreeMap<u128, &'a Plan>)
    ensures
        map@.map_values(|v: &Plan| v.deep_view()) == last_plans(batch_models(expected@)),
{
    broadcast use group_btree_axioms;

    let ghost models = batch_models(expected@);
    let mut map: BTreeMap<u128, &'a Plan> = BTreeMap::new();
    let mut i: usize = 0;
    assert(map@.map_values(|v: &Plan| v.deep_view()) =~= last_plans(models.take(0)));
    while i < expected.len()
        invariant
            i <= expected@.len(),
            map@.map_values(|v: &Plan| v.deep_view()) == last_plans(models.take(i as int)),
        decreases expected@.len() - i,
    {
        let list = &expected[i].plans;
        let ghost before = last_plans(models.take(i as int));
        let ghost forms = list.deep_view();
        let mut k: usize = 0;
        assert(forms.take(0) =~= Seq::<PlanModel>::empty());
        while k < list.len()
            invariant
                k <= list@.len(),
                forms == list.deep_view(),
                map@.map_values(|v: &Plan| v.deep_view()) == put_plans(
                    before,
                    forms.take(k as int),
                ),
            decreases list@.len() - k,
        {
            let value = &list[k];
            let ghost held = map@;
            map.insert(value.id, value);
            proof {
                assert(forms[k as int] == value.deep_view());
                assert(forms.take(k + 1).drop_last() =~= forms.take(k as int));
                assert(map@.map_values(|v: &Plan| v.deep_view()) =~= held.map_values(
                    |v: &Plan| v.deep_view(),
                ).insert(value.id, value.deep_view()));
            }
            k = k + 1;
        }
        proof {
            assert(forms.take(k as int) =~= forms);
            assert(models.take(i + 1).drop_last() =~= models.take(i as int));
            assert(models.take(i + 1).last() == expected@[i as int].deep_view());
        }
        i = i + 1;
    }
    assert(models.take(i as int) =~= models);
    map
}

#[verifier::loop_isolation(false)]
fn compare_plans(
    map: &BTreeMap<u128, &Plan>,
    catalog: &Catalog,
    limits: &ShadowReconcileLimits,
    report: &mut ShadowReconciliationReport,
)
    ensures
        ({
            let expected = map@.map_values(|v: &Plan| v.deep_view());
            let c = catalog.model();
            final(report)@ == after_verdicts(
                old(report)@,
                limits.max_mismatch_details,
                CatalogObjectKind::Plan,
                sorted_ids(expected.dom()),
                |id: u128|
                    verdict_of(
                        c.plans.contains_key(id),
                        same_plan(c.plans[id], expected[id]),
                    ),
            )
        }),
{
    broadcast use group_btree_axioms;

    let ghost expected = map@.map_values(|v: &Plan| v.deep_view());
    let ghost c = catalog.model();
    let ghost rule = |id: u128|
        verdict_of(c.plans.contains_key(id), same_plan(c.plans[id], expected[id]));
    let ghost start = report@;
    let keys = u128_keys(map);
    proof {
        assert(ascending_ids(keys@, expected.dom())) by {
            assert forall|k: u128| #[trigger] keys@.contains(k) <==> expected.dom().contains(k) by {
                assert(keys@.contains(k) <==> map@.contains_key(k));
            }
        }
        lemma_sorted(keys@, expected.dom());
    }
    let mut i: usize = 0;
    assert(keys@.take(0) =~= Seq::<u128>::empty());
    while i < keys.len()
        invariant
            i <= keys@.len(),
            report@ == after_verdicts(
                start,
                limits.max_mismatch_details,
                CatalogObjectKind::Plan,
                keys@.take(i as int),
                rule,
            ),
        decreases keys@.len() - i,
    {
        let id: u128 = keys[i];
        assert(keys@.contains(id));
        if let Some(wanted) = map.get(&id) {
            assert(expected[id] == wanted.deep_view());
            let verdict: Verdict = match catalog.plan(id) {
                Some(actual) => give_verdict(true, plans_are_same(actual, wanted)),
                None => give_verdict(false, false),
            };
            assert(verdict == rule(id));
            note_verdict(report, limits, CatalogObjectKind::Plan, id, verdict);
        }
        proof {
            assert(keys@.take(i + 1).drop_last() =~= keys@.take(i as int));
            assert(keys@.take(i + 1).last() == id);
        }
        i = i + 1;
    }
    assert(keys@.take(i as int) =~= keys@);
}

/// Compares the last supplied form of each catalog object with the catalog.
pub fn reconcile_catalog(
    expected: &[CommitBatchRequest],
    catalog: &Catalog,
    limits: &ShadowReconcileLimits,
    report: &mut ShadowReconciliationReport,
)
    ensures
        final(report)@ == after_catalog(
            old(report)@,
            limits.max_mismatch_details,
            batch_models(expected@),
            catalog.model(),
        ),
{
    broadcast use group_btree_axioms;

    let entities = gather_entities(expected);
    let relations = gather_relations(expected);
    let series = gather_series(expected);
    let runs = gather_runs(expected);
    let plans = gather_plans(expected);
    let ghost models = batch_models(expected@);
    proof {
        assert(last_entities(models).dom() =~= entities@.dom());
        assert(last_relations(models).dom() =~= relations@.dom());
        assert(last_series(models).dom() =~= series@.dom());
        assert(last_runs(models).dom() =~= runs@.dom());
        assert(last_plans(models).dom() =~= plans@.dom());
    }
    report.expected_catalog_objects =
    entities.len().saturating_add(relations.len()).saturating_add(series.len()).saturating_add(
        runs.len(),
    ).saturating_add(plans.len());
    compare_entities(&entities, catalog, limits, report);
    compare_relations(&relations, catalog, limits, report);
    compare_series(&series, catalog, limits, report);
    compare_runs(&runs, catalog, limits, report);
    compare_plans(&plans, catalog, limits, report);
}

/// The points of some batches, in order.
pub open spec fn all_points(batches: Seq<BatchModel>) -> Seq<Point>
    decreases batches.len(),
{
    if batches.len() == 0 {
        Seq::empty()
    } else {
        all_points(batches.drop_last()) + batches.last().points
    }
}

/// The identities of some points.
pub open spec fn keys_of(points: Seq<Point>) -> Seq<ShadowPointKey> {
    Seq::new(points.len(), |i: int| key_of(points[i]))
}

/// The series of the first point whose time has no exclusive query end.
pub open spec fn first_endless(points: Seq<Point>) -> Option<u64>
    decreases points.len(),
{
    if points.len() == 0 {
        None
    } else {
        match first_endless(points.drop_last()) {
            Some(series) => Some(series),
            None => if points.last().valid_time == i64::MAX {
                Some(points.last().series_id)
            } else {
                None
            },
        }
    }
}

/// Half-open span of time.
#[derive(Clone, Copy, Debug, PartialEq, Eq, Structural)]
pub struct SeriesSpan {
    pub start: i64,
    pub end: i64,
}

/// The smallest span of each series that contains its points.
pub open spec fn spans_of(points: Seq<Point>) -> Map<u64, SeriesSpan>
    decreases points.len(),
{
    if points.len() == 0 {
        Map::empty()
    } else {
        let before = spans_of(points.drop_last());
        let p = points.last();
        let span = if before.contains_key(p.series_id) {
            let old_span = before[p.series_id];
            SeriesSpan {
                start: if p.valid_time < old_span.start {
                    p.valid_time
                } else {
                    old_span.start
                },
                end: if p.valid_time + 1 > old_span.end {
                    (p.valid_time + 1) as i64
                } else {
                    old_span.end
                },
            }
        } else {
            SeriesSpan { start: p.valid_time, end: (p.valid_time + 1) as i64 }
        };
        before.insert(p.series_id, span)
    }
}

/// The span of a series contains each of its points.
pub proof fn spans_contain_points(points: Seq<Point>, i: int)
    requires
        first_endless(points) is None,
        0 <= i < points.len(),
    ensures
        spans_of(points).contains_key(points[i].series_id),
        spans_of(points)[points[i].series_id].start <= points[i].valid_time
            < spans_of(points)[points[i].series_id].end,
    decreases points.len(),
{
    if i < points.len() - 1 {
        spans_contain_points(points.drop_last(), i);
    }
}

proof fn lemma_endless_stays(points: Seq<Point>, n: int)
    requires
        0 <= n <= points.len(),
        first_endless(points.take(n)) is Some,
    ensures
        first_endless(points) == first_endless(points.take(n)),
    decreases points.len() - n,
{
    if n < points.len() {
        assert(points.take(n + 1).drop_last() =~= points.take(n));
        lemma_endless_stays(points, n + 1);
    } else {
        assert(points.take(n) =~= points);
    }
}

proof fn lemma_endless_prefix(a: Seq<Point>, b: Seq<Point>)
    requires
        first_endless(a) is Some,
    ensures
        first_endless(a + b) == first_endless(a),
{
    assert((a + b).take(a.len() as int) =~= a);
    lemma_endless_stays(a + b, a.len() as int);
}

proof fn lemma_endless_batches(batches: Seq<BatchModel>, n: int)
    requires
        0 <= n <= batches.len(),
        first_endless(all_points(batches.take(n))) is Some,
    ensures
        first_endless(all_points(batches)) == first_endless(all_points(batches.take(n))),
    decreases batches.len() - n,
{
    if n < batches.len() {
        assert(batches.take(n + 1).drop_last() =~= batches.take(n));
        lemma_endless_prefix(all_points(batches.take(n)), batches.take(n + 1).last().points);
        lemma_endless_batches(batches, n + 1);
    } else {
        assert(batches.take(n) =~= batches);
    }
}

/// The points that a window expects, and those that the store has shown so far.
#[derive(Debug)]
pub struct PointWindow {
    expected: Vec<ShadowPointKey>,
    spans: BTreeMap<u64, SeriesSpan>,
    observed: Vec<ShadowPointKey>,
    scanned: usize,
}

impl PointWindow {
    pub closed spec fn expected(&self) -> Seq<ShadowPointKey> {
        self.expected@
    }

    pub closed spec fn series(&self) -> Map<u64, SeriesSpan> {
        self.spans@
    }

    pub closed spec fn observed(&self) -> Seq<ShadowPointKey> {
        self.observed@
    }

    pub closed spec fn scanned(&self) -> usize {
        self.scanned
    }

    /// Expects the points of some batches.
    #[verifier::loop_isolation(false)]
    pub fn new(batches: &[CommitBatchRequest]) -> (outcome: Result<
        PointWindow,
        ShadowReconcileError,
    >)
        ensures
            match first_endless(all_points(batch_models(batches@))) {
                Some(series_id) => outcome == Err::<PointWindow, ShadowReconcileError>(
                    ShadowReconcileError::MaximumTimestamp { series_id },
                ),
                None => outcome matches Ok(window) && window.expected() == keys_of(
                    all_points(batch_models(batches@)),
                ) && window.series() == spans_of(all_points(batch_models(batches@)))
                    && window.observed() == Seq::<ShadowPointKey>::empty() && window.scanned() == 0,
            },
    {
        broadcast use group_btree_axioms;

        let ghost models = batch_models(batches@);
        let mut expected: Vec<ShadowPointKey> = Vec::new();
        let mut spans: BTreeMap<u64, SeriesSpan> = BTreeMap::new();
        let mut i: usize = 0;
        let ghost none = all_points(models.take(0));
        assert(none =~= Seq::<Point>::empty());
        assert(expected@ =~= keys_of(none));
        while i < batches.len()
            invariant
                i <= batches@.len(),
                first_endless(all_points(models.take(i as int))) is None,
                expected@ == keys_of(all_points(models.take(i as int))),
                spans@ == spans_of(all_points(models.take(i as int))),
            decreases batches@.len() - i,
        {
            let points = &batches[i].points;
            let ghost before = all_points(models.take(i as int));
            proof {
                assert(models.take(i + 1).drop_last() =~= models.take(i as int));
                assert(models.take(i + 1).last() == batches@[i as int].deep_view());
                assert(batches@[i as int].deep_view().points =~= points@);
                assert(all_points(models.take(i + 1)) == before + points@);
                assert(before + points@.take(0) =~= before);
            }
            let mut k: usize = 0;
            while k < points.len()
                invariant
                    k <= points@.len(),
                    first_endless(before + points@.take(k as int)) is None,
                    expected@ == keys_of(before + points@.take(k as int)),
                    spans@ == spans_of(before + points@.take(k as int)),
                decreases points@.len() - k,
            {
                let point: Point = points[k];
                let ghost shorter = before + points@.take(k as int);
                let ghost longer = before + points@.take(k + 1);
                proof {
                    assert(longer.drop_last() =~= shorter);
                    assert(longer.last() == point);
                }
                if point.valid_time == i64::MAX {
                    proof {
                        assert((before + points@).take(longer.len() as int) =~= longer);
                        lemma_endless_stays(before + points@, longer.len() as int);
                        lemma_endless_batches(models, i + 1);
                    }
                    return Err(
                        ShadowReconcileError::MaximumTimestamp { series_id: point.series_id },
                    );
                }
                let end: i64 = point.valid_time + 1;
                expected.push(ShadowPointKey::from(point));
                assert(expected@ =~= keys_of(longer));
                let span: SeriesSpan = match spans.get(&point.series_id) {
                    Some(span) => SeriesSpan {
                        start: if point.valid_time < span.start {
                            point.valid_time
                        } else {
                            span.start
                        },
                        end: if end > span.end {
                            end
                        } else {
                            span.end
                        },
                    },
                    None => SeriesSpan { start: point.valid_time, end },
                };
                spans.insert(point.series_id, span);
                k = k + 1;
            }
            assert(points@.take(k as int) =~= points@);
            i = i + 1;
        }
        assert(models.take(i as int) =~= models);
        let observed: Vec<ShadowPointKey> = Vec::new();
        assert(observed@ =~= Seq::<ShadowPointKey>::empty());
        Ok(PointWindow { expected, spans, observed, scanned: 0 })
    }

    /// The spans to visit, by ascending series.
    #[verifier::loop_isolation(false)]
    pub fn spans(&self) -> (list: Vec<(u64, SeriesSpan)>)
        ensures
            forall|i: int, j: int|
                #![trigger list@[i], list@[j]]
                0 <= i < j < list@.len() ==> list@[i].0 < list@[j].0,
            forall|s: u64| #[trigger]
                self.series().contains_key(s) ==> list@.contains((s, self.series()[s])),
            forall|i: int|
                0 <= i < list@.len() ==> self.series().contains_key((#[trigger] list@[i]).0)
                    && self.series()[list@[i].0] == list@[i].1,
    {
        broadcast use group_btree_axioms;

        let keys = u64_keys(&self.spans);
        let mut list: Vec<(u64, SeriesSpan)> = Vec::new();
        let mut i: usize = 0;
        while i < keys.len()
            invariant
                i <= keys@.len(),
                list@.len() == i,
                forall|k: int|
                    0 <= k < i ==> #[trigger] list@[k] == (keys@[k], self.spans@[keys@[k]]),
            decreases keys@.len() - i,
        {
            assert(keys@.contains(keys@[i as int]));
            if let Some(span) = self.spans.get(&keys[i]) {
                list.push((keys[i], *span));
            }
            i = i + 1;
        }
        proof {
            assert forall|s: u64| #[trigger] self.series().contains_key(s) implies list@.contains(
                (s, self.series()[s]),
            ) by {
                assert(self.spans@.contains_key(s));
                assert(keys@.contains(s));
                assert(list@[keys@.index_of(s)] == (s, self.spans@[s]));
            }
            assert forall|k: int| 0 <= k < list@.len() implies self.series().contains_key(
                (#[trigger] list@[k]).0,
            ) && self.series()[list@[k].0] == list@[k].1 by {
                assert(keys@.contains(keys@[k]));
            }
        }
        list
    }

    /// Counts entries that are about to be read.
    pub fn scan(&mut self, count: usize, limits: &ShadowReconcileLimits) -> (outcome: Result<
        (),
        ShadowReconcileError,
    >)
        ensures
            outcome == if old(self).scanned() + count > limits.max_scanned_points {
                Err::<(), ShadowReconcileError>(
                    ShadowReconcileError::LimitExceeded {
                        limit: ReconcileLimit::ScannedPoints,
                        maximum: limits.max_scanned_points,
                    },
                )
            } else {
                Ok::<(), ShadowReconcileError>(())
            },
            outcome is Ok ==> final(self).scanned() == old(self).scanned() + count,
            outcome is Err ==> final(self).scanned() == old(self).scanned(),
            final(self).expected() == old(self).expected(),
            final(self).series() == old(self).series(),
            final(self).observed() == old(self).observed(),
    {
        let total: usize = match self.scanned.checked_add(count) {
            Some(total) => total,
            None => {
                return Err(
                    ShadowReconcileError::LimitExceeded {
                        limit: ReconcileLimit::ScannedPoints,
                        maximum: limits.max_scanned_points,
                    },
                );
            },
        };
        check_limit(total, limits.max_scanned_points, ReconcileLimit::ScannedPoints)?;
        self.scanned = total;
        Ok(())
    }

    /// Takes a point that the store has in one of the spans.
    pub fn observe(&mut self, point: Point, limits: &ShadowReconcileLimits) -> (outcome: Result<
        (),
        ShadowReconcileError,
    >)
        ensures
            outcome == if old(self).observed().len() + 1 > limits.max_observed_points {
                Err::<(), ShadowReconcileError>(
                    ShadowReconcileError::LimitExceeded {
                        limit: ReconcileLimit::ObservedPoints,
                        maximum: limits.max_observed_points,
                    },
                )
            } else {
                Ok::<(), ShadowReconcileError>(())
            },
            outcome is Ok ==> final(self).observed() == old(self).observed().push(key_of(point)),
            outcome is Err ==> final(self).observed() == old(self).observed(),
            final(self).expected() == old(self).expected(),
            final(self).series() == old(self).series(),
            final(self).scanned() == old(self).scanned(),
    {
        let seen: usize = self.observed.len();
        let total: usize = match seen.checked_add(1) {
            Some(total) => total,
            None => {
                return Err(
                    ShadowReconcileError::LimitExceeded {
                        limit: ReconcileLimit::ObservedPoints,
                        maximum: limits.max_observed_points,
                    },
                );
            },
        };
        check_limit(total, limits.max_observed_points, ReconcileLimit::ObservedPoints)?;
        self.observed.push(ShadowPointKey::from(point));
        Ok(())
    }
}

/// A report after one identity has been compared.
pub open spec fn after_group(r: ReportModel, max_details: usize, g: PointCounts) -> ReportModel {
    let r1 = ReportModel {
        matching_points: raised(
            r.matching_points,
            if g.expected < g.actual {
                g.expected as nat
            } else {
                g.actual as nat
            },
        ),
        missing_points: raised(
            r.missing_points,
            if g.expected > g.actual {
                (g.expected - g.actual) as nat
            } else {
                0
            },
        ),
        unexpected_points: raised(
            r.unexpected_points,
            if g.actual > g.expected {
                (g.actual - g.expected) as nat
            } else {
                0
            },
        ),
        ..r
    };
    if g.expected == g.actual {
        r1
    } else {
        noted(
            r1,
            max_details,
            ShadowReconcileDetail::PointCount {
                point: g.point,
                expected: g.expected,
                actual: g.actual,
            },
        )
    }
}

/// A report after some identities have been compared.
pub open spec fn after_groups(r: ReportModel, max_details: usize, groups: Seq<PointCounts>) -> ReportModel
    decreases groups.len(),
{
    if groups.len() == 0 {
        r
    } else {
        after_group(after_groups(r, max_details, groups.drop_last()), max_details, groups.last())
    }
}

/// Whether a report counts the points of a window.
pub open spec fn counts_points(
    result: ReportModel,
    r: ReportModel,
    max_details: usize,
    window: PointWindow,
) -> bool {
    exists|groups: Seq<PointCounts>| #[trigger]
        counted(groups, window.expected(), window.observed()) && result == after_groups(
            ReportModel {
                scanned_points: window.scanned(),
                observed_points: window.observed().len() as usize,
                ..r
            },
            max_details,
            groups,
        )
}

/// Compares how often each point was expected and observed.
#[verifier::loop_isolation(false)]
pub fn reconcile_points(
    window: &PointWindow,
    limits: &ShadowReconcileLimits,
    report: &mut ShadowReconciliationReport,
)
    ensures
        counts_points(final(report)@, old(report)@, limits.max_mismatch_details, *window),
{
    report.scanned_points = window.scanned;
    report.observed_points = window.observed.len();
    let ghost start = report@;
    let groups = count_points(&window.expected, &window.observed);
    let mut i: usize = 0;
    assert(groups@.take(0) =~= Seq::<PointCounts>::empty());
    while i < groups.len()
        invariant
            i <= groups@.len(),
            report@ == after_groups(start, limits.max_mismatch_details, groups@.take(i as int)),
        decreases groups@.len() - i,
    {
        let g: PointCounts = groups[i];
        let matching: usize = if g.expected < g.actual {
            g.expected
        } else {
            g.actual
        };
        report.matching_points = report.matching_points.saturating_add(matching);
        report.missing_points = report.missing_points.saturating_add(
            g.expected.saturating_sub(g.actual),
        );
        report.unexpected_points = report.unexpected_points.saturating_add(
            g.actual.saturating_sub(g.expected),
        );
        if g.expected != g.actual {
            record_detail(
                report,
                limits,
                ShadowReconcileDetail::PointCount {
                    point: g.point,
                    expected: g.expected,
                    actual: g.actual,
                },
            );
        }
        proof {
            assert(groups@.take(i + 1).drop_last() =~= groups@.take(i as int));
            assert(groups@.take(i + 1).last() == g);
        }
        i = i + 1;
    }
    assert(groups@.take(i as int) =~= groups@);
    assert(counted(groups@, window.expected(), window.observed()));
}

/// Whether a report is that of a whole comparison.
pub open spec fn reconciled(
    result: ReportModel,
    batches: Seq<BatchModel>,
    limits: ShadowReconcileLimits,
    expected_points: usize,
    found: Seq<Option<StoredReceipt>>,
    c: CatalogModel,
    window: PointWindow,
) -> bool {
    exists|r: ReportModel|
        #![trigger noted_all(r)]
        counts_points(
            r,
            after_catalog(
                after_receipts(
                    blank_report(batches.len() as usize, expected_points),
                    limits.max_mismatch_details,
                    batches,
                    found,
                ),
                limits.max_mismatch_details,
                batches,
                c,
            ),
            limits.max_mismatch_details,
            window,
        ) && result == noted_all(r)
}

/// A report that says whether it gives the details of every mismatch.
pub open spec fn noted_all(r: ReportModel) -> ReportModel {
    ReportModel { details_truncated: r.mismatch_details.len() < r.mismatch_groups, ..r }
}

/// The limit that a window goes beyond, if it does: what it expects, what has been read
/// for it, or what has been seen of it.
pub open spec fn comparison_fault(
    batches: Seq<BatchModel>,
    limits: ShadowReconcileLimits,
    window: PointWindow,
) -> Option<ShadowReconcileError> {
    match window_check(batches, limits) {
        Err(error) => Some(error),
        Ok(_) => if window.scanned() > limits.max_scanned_points {
            Some(
                ShadowReconcileError::LimitExceeded {
                    limit: ReconcileLimit::ScannedPoints,
                    maximum: limits.max_scanned_points,
                },
            )
        } else if window.observed().len() > limits.max_observed_points {
            Some(
                ShadowReconcileError::LimitExceeded {
                    limit: ReconcileLimit::ObservedPoints,
                    maximum: limits.max_observed_points,
                },
            )
        } else {
            None
        },
    }
}

/// Checks a window and compares it with what the store holds: the receipt of each
/// batch, if there is one, the catalog, and the points that the store has shown in the
/// spans of the window.
pub fn reconcile_shadow_batches(
    expected: &[CommitBatchRequest],
    limits: &ShadowReconcileLimits,
    found: &[Option<StoredReceipt>],
    catalog: &Catalog,
    window: &PointWindow,
) -> (outcome: Result<ShadowReconciliationReport, ShadowReconcileError>)
    requires
        all_countable(batch_models(expected@)),
        expected@.len() == found@.len(),
        window.expected() == keys_of(all_points(batch_models(expected@))),
    ensures
        match comparison_fault(batch_models(expected@), *limits, *window) {
            Some(error) => outcome == Err::<ShadowReconciliationReport, ShadowReconcileError>(
                error,
            ),
            None => outcome matches Ok(report) && reconciled(
                report@,
                batch_models(expected@),
                *limits,
                window_check(batch_models(expected@), *limits)->Ok_0 as usize,
                found@,
                catalog.model(),
                *window,
            ),
        },
{
    let expected_points: usize = match check_window(expected, limits) {
        Ok(points) => points,
        Err(error) => {
            return Err(error);
        },
    };
    check_limit(window.scanned, limits.max_scanned_points, ReconcileLimit::ScannedPoints)?;
    check_limit(window.observed.len(), limits.max_observed_points, ReconcileLimit::ObservedPoints)?;
    let mut report = ShadowReconciliationReport::default();
    report.expected_batches = expected.len();
    report.expected_points = expected_points;
    assert(report@ =~= blank_report(expected@.len() as usize, expected_points));
    reconcile_receipts(expected, found, limits, &mut report);
    reconcile_catalog(expected, catalog, limits, &mut report);
    reconcile_points(window, limits, &mut report);
    let ghost r = report@;
    report.details_truncated = report.mismatch_details.len() < report.mismatch_groups;
    assert(report@ =~= noted_all(r));
    Ok(report)
}

proof fn lemma_no_difference(r: ReportModel, max_details: usize, groups: Seq<PointCounts>)
    ensures
        after_groups(r, max_details, groups).missing_points == 0 <==> r.missing_points == 0
            && forall|i: int|
            0 <= i < groups.len() ==> (#[trigger] groups[i]).expected <= groups[i].actual,
        after_groups(r, max_details, groups).unexpected_points == 0 <==> r.unexpected_points == 0
            && forall|i: int|
            0 <= i < groups.len() ==> (#[trigger] groups[i]).actual <= groups[i].expected,
    decreases groups.len(),
{
    if groups.len() > 0 {
        let front = groups.drop_last();
        lemma_no_difference(r, max_details, front);
        assert(forall|i: int| 0 <= i < front.len() ==> #[trigger] front[i] == groups[i]);
        assert(groups[groups.len() - 1] == groups.last());
        assert forall|i: int| 0 <= i < groups.len() implies (#[trigger] groups[i]) == if i
            < front.len() {
            front[i]
        } else {
            groups.last()
        } by {}
        let after = after_groups(r, max_details, groups);
        if after.missing_points == 0 {
            assert forall|i: int| 0 <= i < groups.len() implies (#[trigger] groups[i]).expected
                <= groups[i].actual by {
                if i < front.len() {
                    assert(front[i].expected <= front[i].actual);
                }
            }
        }
        if r.missing_points == 0 && forall|i: int|
            0 <= i < groups.len() ==> (#[trigger] groups[i]).expected <= groups[i].actual {
            assert forall|i: int| 0 <= i < front.len() implies (#[trigger] front[i]).expected
                <= front[i].actual by {
                assert(groups[i].expected <= groups[i].actual);
            }
        }
        if after.unexpected_points == 0 {
            assert forall|i: int| 0 <= i < groups.len() implies (#[trigger] groups[i]).actual
                <= groups[i].expected by {
                if i < front.len() {
                    assert(front[i].actual <= front[i].expected);
                }
            }
        }
        if r.unexpected_points == 0 && forall|i: int|
            0 <= i < groups.len() ==> (#[trigger] groups[i]).actual <= groups[i].expected {
            assert forall|i: int| 0 <= i < front.len() implies (#[trigger] front[i]).actual
                <= front[i].expected by {
                assert(groups[i].actual <= groups[i].expected);
            }
        }
    }
}

/// A comparison reports neither missing nor unexpected points exactly when the
/// store has shown each expected point as often as it was expected, and no other.
pub proof fn points_match_exactly(
    result: ReportModel,
    r: ReportModel,
    max_details: usize,
    window: PointWindow,
)
    requires
        counts_points(result, r, max_details, window),
        r.missing_points == 0,
        r.unexpected_points == 0,
    ensures
        (result.missing_points == 0 && result.unexpected_points == 0) <==> same_contents(
            window.expected(),
            window.observed(),
        ),
{
    let groups = choose|groups: Seq<PointCounts>| #[trigger]
        counted(groups, window.expected(), window.observed()) && result == after_groups(
            ReportModel {
                scanned_points: window.scanned(),
                observed_points: window.observed().len() as usize,
                ..r
            },
            max_details,
            groups,
        );
    let start = ReportModel {
        scanned_points: window.scanned(),
        observed_points: window.observed().len() as usize,
        ..r
    };
    lemma_no_difference(start, max_details, groups);
    if result.missing_points == 0 && result.unexpected_points == 0 {
        assert forall|k: ShadowPointKey| #[trigger]
            occurrences(window.expected(), k) == occurrences(window.observed(), k) by {
            if occurrences(window.expected(), k) > 0 || occurrences(window.observed(), k) > 0 {
                assert(names(groups, k));
                let i = choose|i: int| 0 <= i < groups.len() && (#[trigger] groups[i]).point == k;
                assert(groups[i].expected <= groups[i].actual);
                assert(groups[i].actual <= groups[i].expected);
            }
        }
    }
    if same_contents(window.expected(), window.observed()) {
        assert forall|i: int| 0 <= i < groups.len() implies (#[trigger] groups[i]).expected
            == groups[i].actual by {
            assert(occurrences(window.expected(), groups[i].point) == occurrences(
                window.observed(),
                groups[i].point,
            ));
        }
    }
}

} // verus!
