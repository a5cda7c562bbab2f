use ftwdb::catalog::Catalog;
use ftwdb::error::Error;
use ftwdb::model::{
    Entity, EntityId, FloatBits, Point, RollupPolicy, Run, RunId, RunKind, RunStatus,
    SeriesDefinition, SeriesSemantics,
};
use ftwdb::point_keys::{count_points, is_before, sort_keys, ShadowPointKey};
use ftwdb::segment::{Segment, BLOCK_HEADER_BYTES, SEGMENT_HEADER_BYTES};
use ftwdb::shadow_protocol::CommitBatchRequest;
use ftwdb::shadow_reconcile::{
    check_window, reconcile_shadow_batches, CatalogObjectKind, PointWindow, ReconcileLimit,
    ShadowReconcileDetail, ShadowReconcileError, ShadowReconcileLimits,
    ShadowReconciliationReport, StoredReceipt,
};
use ftwdb::storage::IngressIdentity;
use ftwdb::text_map::TextMap;
use ftwdb::transaction::transaction_from_batch;

fn batch(value: f64) -> CommitBatchRequest {
    CommitBatchRequest {
        source_id: 7,
        sequence: 10,
        commit_id: 99,
        entities: vec![Entity {
            id: EntityId(1),
            kind: "site".into(),
            name: "alpha".into(),
            parent: None,
            valid_from: 1,
            valid_to: None,
            properties: TextMap::new(),
        }],
        relations: Vec::new(),
        series: vec![SeriesDefinition {
            id: 2,
            owner_entity: Some(EntityId(1)),
            owner_relation: None,
            name: "grid_power".into(),
            physical_quantity: "power".into(),
            canonical_unit: "W".into(),
            semantics: SeriesSemantics::Gauge,
            maximum_gap_micros: Some(5_000_000),
            rollup_policy: RollupPolicy { raw_retain_for_micros: None, tiers: Vec::new() },
        }],
        runs: vec![Run {
            id: RunId(3),
            kind: RunKind::Import,
            status: RunStatus::Succeeded,
            created_at: 2,
            knowledge_time: 2,
            workflow: "shadow".into(),
            model: "source".into(),
            model_version: "1".into(),
            parent_run: None,
            input_snapshot: None,
            attributes: TextMap::new(),
        }],
        plans: Vec::new(),
        points: vec![Point {
            series_id: 2,
            valid_time: 4,
            valid_time_end: 4,
            knowledge_time: 5,
            change_time: 6,
            run_id: 3,
            value: FloatBits(value.to_bits()),
            quality: 7,
            flags: 8,
        }],
    }
}

fn actual(time: i64, value: f64) -> Point {
    Point::actual(2, time, FloatBits(value.to_bits()))
}

/// A store of committed batches: their receipts, the catalog and blocks of points.
struct Kept {
    durable: bool,
    batches: Vec<CommitBatchRequest>,
    catalog: Catalog,
    blocks: Vec<Vec<Point>>,
}

impl Kept {
    fn of(batches: Vec<CommitBatchRequest>) -> Self {
        let mut catalog = Catalog::default();
        let mut blocks = Vec::new();
        for batch in &batches {
            blocks.push(batch.points.clone());
        }
        let copies: Vec<CommitBatchRequest> = batches.iter().map(copy).collect();
        for batch in copies {
            catalog = catalog.validate_and_apply(&transaction_from_batch(batch).records).unwrap();
        }
        Kept { durable: true, batches, catalog, blocks }
    }

    fn receipt(&self, expected: &CommitBatchRequest) -> Option<StoredReceipt> {
        self.batches
            .iter()
            .find(|kept| {
                (kept.source_id, kept.sequence) == (expected.source_id, expected.sequence)
            })
            .map(|kept| {
                let transaction = transaction_from_batch(copy(kept));
                StoredReceipt {
                    commit_id: kept.commit_id,
                    records: transaction.record_count(),
                    points: transaction.point_count(),
                    durable: self.durable,
                    payload_matches: kept == expected,
                }
            })
    }

    /// Compares a window of batches with what is kept.
    fn reconcile(
        &self,
        expected: &[CommitBatchRequest],
        limits: &ShadowReconcileLimits,
    ) -> Result<ShadowReconciliationReport, ShadowReconcileError> {
        check_window(expected, limits)?;
        let found: Vec<Option<StoredReceipt>> =
            expected.iter().map(|batch| self.receipt(batch)).collect();
        let mut window = PointWindow::new(expected)?;
        for (series, span) in window.spans() {
            for block in &self.blocks {
                if block.iter().any(|point| {
                    point.series_id == series
                        && point.valid_time >= span.start
                        && point.valid_time < span.end
                }) {
                    window.scan(block.len(), limits)?;
                    for point in block {
                        if point.series_id == series
                            && point.valid_time >= span.start
                            && point.valid_time < span.end
                        {
                            window.observe(*point, limits)?;
                        }
                    }
                }
            }
        }
        reconcile_shadow_batches(expected, limits, &found, &self.catalog, &window)
    }
}

fn copy(original: &CommitBatchRequest) -> CommitBatchRequest {
    let mut made = batch(0.0);
    made.source_id = original.source_id;
    made.sequence = original.sequence;
    made.commit_id = original.commit_id;
    made.entities[0].name = original.entities[0].name.clone();
    made.points = original.points.clone();
    made
}

#[test]
fn exact_window_matches_receipt_catalog_and_point_bits() {
    let kept = Kept::of(vec![batch(-0.0)]);
    let report = kept.reconcile(&[batch(-0.0)], &ShadowReconcileLimits::default()).unwrap();
    assert!(report.content_matches());
    assert!(report.ready_to_release_source_copy());
    assert_eq!((report.matching_receipts, report.matching_points), (1, 1));
    assert_eq!(report.expected_catalog_objects, 3);
    assert_eq!(report.matching_catalog_objects, 3);
    assert_eq!(report.scanned_points, 1);
    assert!(report.mismatch_details.is_empty());
}

#[test]
fn exact_receipt_payload_detects_batches_with_swapped_points() {
    let first = batch(10.0);
    let mut second = batch(20.0);
    second.sequence = 11;
    second.commit_id = 100;
    second.points[0].valid_time = 100;
    second.points[0].valid_time_end = 100;

    let mut stored_first = copy(&second);
    stored_first.sequence = first.sequence;
    stored_first.commit_id = first.commit_id;
    let mut stored_second = copy(&first);
    stored_second.sequence = second.sequence;
    stored_second.commit_id = second.commit_id;

    let kept = Kept::of(vec![stored_first, stored_second]);
    let report = kept.reconcile(&[first, second], &ShadowReconcileLimits::default()).unwrap();
    assert!(!report.content_matches());
    assert_eq!(report.receipt_payload_mismatches, 2);
    assert_eq!((report.missing_points, report.unexpected_points), (0, 0));
}

#[test]
fn reports_changed_identity_metadata_and_exact_point_bits() {
    let kept = Kept::of(vec![batch(0.0)]);
    let mut expected = batch(-0.0);
    expected.commit_id += 1;
    expected.entities[0].name = "changed".into();
    let report = kept
        .reconcile(
            &[expected],
            &ShadowReconcileLimits {
                max_mismatch_details: 2,
                ..ShadowReconcileLimits::default()
            },
        )
        .unwrap();
    assert!(!report.content_matches());
    assert_eq!(report.conflicting_receipts, 1);
    assert_eq!(report.different_catalog_objects, 1);
    assert_eq!((report.missing_points, report.unexpected_points), (1, 1));
    assert_eq!(report.mismatch_details.len(), 2);
    assert!(report.details_truncated);
    assert!(matches!(
        report.mismatch_details[0],
        ShadowReconcileDetail::ReceiptCommitConflict { actual_commit_id: 99, .. }
    ));
    assert!(matches!(
        report.mismatch_details[1],
        ShadowReconcileDetail::Catalog { kind: CatalogObjectKind::Entity, id: 1, .. }
    ));
}

#[test]
fn read_only_recovery_does_not_claim_receipt_durability() {
    let mut kept = Kept::of(vec![batch(1.0)]);
    kept.durable = false;
    let report = kept.reconcile(&[batch(1.0)], &ShadowReconcileLimits::default()).unwrap();
    assert!(report.content_matches());
    assert_eq!(report.nondurable_receipts, 1);
    assert!(!report.ready_to_release_source_copy());
}

#[test]
fn scan_limit_counts_filtered_block_points_and_spans_seals_and_live_tail() {
    let expected = [batch(1.0)];
    let mut kept = Kept::of(vec![batch(1.0)]);
    kept.blocks = vec![vec![actual(0, 0.0), expected[0].points[0], actual(8, 8.0)]];
    let check = |kept: &Kept, maximum| {
        kept.reconcile(
            &expected,
            &ShadowReconcileLimits {
                max_scanned_points: maximum,
                ..ShadowReconcileLimits::default()
            },
        )
    };
    assert_eq!(
        check(&kept, 2).unwrap_err(),
        ShadowReconcileError::LimitExceeded { limit: ReconcileLimit::ScannedPoints, maximum: 2 }
    );
    let report = check(&kept, 3).unwrap();
    assert_eq!(report.scanned_points, 3);
    assert_eq!(report.observed_points, 1);
    assert!(report.content_matches());

    for _ in 0..2 {
        kept.blocks.push(vec![expected[0].points[0]]);
    }
    assert_eq!(
        check(&kept, 4).unwrap_err(),
        ShadowReconcileError::LimitExceeded { limit: ReconcileLimit::ScannedPoints, maximum: 4 }
    );
    let report = check(&kept, 5).unwrap();
    assert_eq!(report.scanned_points, 5);
    assert_eq!(report.observed_points, 3);
    assert_eq!(report.unexpected_points, 2);
    assert_eq!(
        kept.reconcile(
            &expected,
            &ShadowReconcileLimits {
                max_observed_points: 1,
                ..ShadowReconcileLimits::default()
            }
        )
        .unwrap_err(),
        ShadowReconcileError::LimitExceeded { limit: ReconcileLimit::ObservedPoints, maximum: 1 }
    );
}

#[test]
fn scan_limit_rejects_before_reading_an_oversize_block() {
    let expected = [batch(1.0)];
    let points = [expected[0].points[0], actual(8, 8.0)];
    let (mut bytes, _) = Segment::create(&points, 2).unwrap();
    bytes[SEGMENT_HEADER_BYTES + BLOCK_HEADER_BYTES] ^= 0xff;
    let segment = Segment::open(bytes).unwrap();

    let tight =
        ShadowReconcileLimits { max_scanned_points: 1, ..ShadowReconcileLimits::default() };
    let mut window = PointWindow::new(&expected).unwrap();
    assert_eq!(
        window.scan(segment.stats().points as usize, &tight).unwrap_err(),
        ShadowReconcileError::LimitExceeded { limit: ReconcileLimit::ScannedPoints, maximum: 1 }
    );
    window.scan(segment.stats().points as usize, &ShadowReconcileLimits::default()).unwrap();
    let (series, span) = window.spans()[0];
    assert!(matches!(
        segment.query(series, span.start, span.end).map_err(ShadowReconcileError::Store),
        Err(ShadowReconcileError::Store(Error::Corruption { .. }))
    ));
}

#[test]
fn rejects_duplicate_keys_and_work_above_limits() {
    let empty = Kept::of(Vec::new());
    assert!(matches!(
        empty.reconcile(&[batch(1.0), batch(1.0)], &ShadowReconcileLimits::default()),
        Err(ShadowReconcileError::DuplicateSourceSequence { .. })
    ));
    assert_eq!(
        empty
            .reconcile(
                &[batch(1.0)],
                &ShadowReconcileLimits {
                    max_expected_points: 0,
                    ..ShadowReconcileLimits::default()
                }
            )
            .unwrap_err(),
        ShadowReconcileError::LimitExceeded { limit: ReconcileLimit::ExpectedPoints, maximum: 0 }
    );
    assert_eq!(
        Kept::of(vec![batch(1.0)])
            .reconcile(
                &[batch(1.0)],
                &ShadowReconcileLimits {
                    max_scanned_points: 0,
                    ..ShadowReconcileLimits::default()
                }
            )
            .unwrap_err(),
        ShadowReconcileError::LimitExceeded { limit: ReconcileLimit::ScannedPoints, maximum: 0 }
    );
}

#[test]
fn windows_that_cannot_be_identified_are_refused() {
    let limits = ShadowReconcileLimits::default();
    let mut nameless = batch(1.0);
    nameless.source_id = 0;
    assert_eq!(
        check_window(&[nameless], &limits),
        Err(ShadowReconcileError::InvalidIdentity(IngressIdentity::new(0, 10, 99)))
    );
    let mut next = batch(1.0);
    next.sequence = 11;
    assert_eq!(
        check_window(&[batch(1.0), next], &limits),
        Err(ShadowReconcileError::DuplicateCommitId(99))
    );
    let none = ShadowReconcileLimits { max_batches: 0, ..limits };
    assert_eq!(
        check_window(&[batch(1.0)], &none),
        Err(ShadowReconcileError::LimitExceeded { limit: ReconcileLimit::Batches, maximum: 0 })
    );
    let bare = ShadowReconcileLimits { max_metadata_records: 2, ..limits };
    assert_eq!(
        check_window(&[batch(1.0)], &bare),
        Err(ShadowReconcileError::LimitExceeded {
            limit: ReconcileLimit::MetadataRecords,
            maximum: 2,
        })
    );
    let mut last = batch(1.0);
    last.points[0].valid_time = i64::MAX;
    assert_eq!(
        PointWindow::new(&[last]).unwrap_err(),
        ShadowReconcileError::MaximumTimestamp { series_id: 2 }
    );
    assert_eq!(check_window(&[batch(1.0)], &limits), Ok(1));
}

#[test]
fn missing_batches_are_reported() {
    let report = Kept::of(Vec::new())
        .reconcile(&[batch(1.0)], &ShadowReconcileLimits::default())
        .unwrap();
    assert_eq!(report.missing_receipts, 1);
    assert_eq!(report.missing_catalog_objects, 3);
    assert_eq!(report.missing_points, 1);
    assert_eq!(report.mismatch_groups, 5);
    assert!(!report.details_truncated);
}

#[test]
fn points_are_counted_by_their_exact_bits() {
    let key = |value: f64| ShadowPointKey::from(batch(value).points[0]);
    let sorted = sort_keys(&vec![key(2.0), key(1.0), key(-0.0), key(0.0)]);
    assert!(sorted.windows(2).all(|pair| is_before(&pair[0], &pair[1])));
    let groups = count_points(&vec![key(0.0), key(0.0), key(1.0)], &vec![key(0.0), key(-0.0)]);
    let counts: Vec<(u64, usize, usize)> = groups
        .iter()
        .map(|group| (group.point.value_bits, group.expected, group.actual))
        .collect();
    assert_eq!(counts.len(), 3);
    assert!(counts.contains(&(0.0_f64.to_bits(), 2, 1)));
    assert!(counts.contains(&(1.0_f64.to_bits(), 1, 0)));
    assert!(counts.contains(&((-0.0_f64).to_bits(), 0, 1)));
}

#[test]
fn windows_filled_beyond_the_limits_are_refused() {
    let expected = [batch(1.0)];
    let wide = ShadowReconcileLimits::default();
    let mut window = PointWindow::new(&expected).unwrap();
    window.scan(3, &wide).unwrap();
    window.observe(expected[0].points[0], &wide).unwrap();
    window.observe(expected[0].points[0], &wide).unwrap();
    let compare = |limits: &ShadowReconcileLimits| {
        reconcile_shadow_batches(&expected, limits, &[None], &Catalog::default(), &window)
    };
    let report = compare(&wide).unwrap();
    assert_eq!(report.matching_points + report.missing_points, report.expected_points);
    assert_eq!(report.matching_points + report.unexpected_points, report.observed_points);
    assert_eq!(
        report.matching_catalog_objects
            + report.missing_catalog_objects
            + report.different_catalog_objects,
        report.expected_catalog_objects
    );
    assert_eq!(report.mismatch_details.len(), report.mismatch_groups);
    assert_eq!(
        compare(&ShadowReconcileLimits { max_observed_points: 1, ..wide }),
        Err(ShadowReconcileError::LimitExceeded {
            limit: ReconcileLimit::ObservedPoints,
            maximum: 1
        })
    );
    assert_eq!(
        compare(&ShadowReconcileLimits { max_scanned_points: 2, max_observed_points: 1, ..wide }),
        Err(ShadowReconcileError::LimitExceeded {
            limit: ReconcileLimit::ScannedPoints,
            maximum: 2
        })
    );
}
