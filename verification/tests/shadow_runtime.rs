use ftwdb::error::Error;
use ftwdb::model::{FloatBits, Point};
use ftwdb::shadow_runtime::{
    shutdown_outcome, storage_micros, watermarks_in, AckWaitError, CloseOutcome, Command,
    FlushOutcome, FlushSubmitError, QueueReservationError, QueueUsage, ShadowAck,
    ShadowFlushAck, ShadowFlushFailure, ShadowFlushReceipt, ShadowReceipt, ShadowRuntimeConfig,
    ShadowRuntimeState, ShadowStartError, ShadowSubmitter, ShadowWrite, ShadowWriteFailure,
    ShutdownError, StoreOpsSnapshot, SubmitError, Waited, WriteOutcome,
};
use ftwdb::storage::{Commit, Durability, IngressIdentity, IngressWatermarks};
use ftwdb::transaction::Transaction;
use std::collections::BTreeMap;

/// Storage that keeps watermarks and commit identifiers in memory.
#[derive(Default)]
struct FakeStorage {
    commit_ids: Vec<u128>,
    reject_next: bool,
    fail_next: bool,
    panic_next: bool,
    watermarks: BTreeMap<u128, IngressWatermarks>,
    manual: bool,
    max_batch_points: Option<usize>,
    exact: bool,
    receipts: BTreeMap<(u128, u64), (u128, Transaction)>,
    points: usize,
}

impl FakeStorage {
    fn commit(&mut self, identity: IngressIdentity, transaction: Transaction) -> WriteOutcome {
        if self.panic_next {
            self.panic_next = false;
            return WriteOutcome::Panicked { cause: "injected panic".to_owned() };
        }
        let before = watermarks_in(&self.watermarks, identity.source_id);
        if self.reject_next {
            self.reject_next = false;
            return WriteOutcome::Failed {
                error: Error::InvalidModel("injected invalid model".to_owned()),
                watermarks: before,
            };
        }
        if self.fail_next {
            self.fail_next = false;
            return WriteOutcome::Failed {
                error: Error::Io("injected writer error".to_owned()),
                watermarks: before,
            };
        }
        if let Some(maximum) = self.max_batch_points {
            let points = transaction.point_count();
            if points > maximum {
                return WriteOutcome::Failed {
                    error: Error::BatchTooLarge { points, maximum },
                    watermarks: before,
                };
            }
        }
        let mut deduplicated = false;
        if let Some((commit_id, stored)) =
            self.receipts.get(&(identity.source_id, identity.sequence))
        {
            deduplicated = *commit_id == identity.commit_id && *stored == transaction;
            if !deduplicated && self.exact {
                return WriteOutcome::Failed {
                    error: Error::IngressSourceSequenceConflict {
                        source_id: identity.source_id,
                        sequence: identity.sequence,
                    },
                    watermarks: before,
                };
            }
        }
        self.commit_ids.push(identity.commit_id);
        if !deduplicated {
            self.points += transaction.point_count();
        }
        let watermarks = IngressWatermarks {
            accepted_through: Some(identity.sequence),
            durable_through: if self.manual { None } else { Some(identity.sequence) },
        };
        self.watermarks.insert(identity.source_id, watermarks);
        let commit = Commit {
            frame_offset: self.commit_ids.len() as u64,
            points: transaction.point_count(),
            records: transaction.record_count(),
            bytes_written: 1,
            durable: !self.manual,
            deduplicated: self.exact && deduplicated,
        };
        self.receipts
            .insert((identity.source_id, identity.sequence), (identity.commit_id, transaction));
        let snapshot = self.exact.then_some(StoreOpsSnapshot {
            points: self.points as u64,
            commits: self.receipts.len() as u64,
            last_ack_durable: !self.manual,
            ..snapshot()
        });
        WriteOutcome::Committed { commit, watermarks, snapshot }
    }

    fn flush(&mut self) -> FlushOutcome {
        for watermarks in self.watermarks.values_mut() {
            watermarks.durable_through = watermarks.accepted_through;
        }
        FlushOutcome::Flushed { watermarks: self.watermarks.clone(), snapshot: None }
    }
}

fn snapshot() -> StoreOpsSnapshot {
    StoreOpsSnapshot {
        bytes: 0,
        points: 0,
        commits: 0,
        recovered_tail_bytes: 0,
        durability: Durability::Always,
        last_ack_durable: false,
    }
}

fn runtime(queue_capacity: usize, max_queued_points: usize) -> ShadowSubmitter {
    ShadowSubmitter::start(
        false,
        &ShadowRuntimeConfig { queue_capacity, max_queued_points, ..ShadowRuntimeConfig::default() },
        BTreeMap::new(),
        snapshot(),
    )
    .unwrap()
}

fn write(sequence: u64, commit_id: u128) -> ShadowWrite {
    write_points(sequence, commit_id, 1)
}

fn write_points(sequence: u64, commit_id: u128, points: usize) -> ShadowWrite {
    write_points_for_source(1, sequence, commit_id, points)
}

fn write_points_for_source(
    source_id: u128,
    sequence: u64,
    commit_id: u128,
    points: usize,
) -> ShadowWrite {
    let mut transaction = Transaction::new();
    transaction.append_points(vec![
        Point::actual(1, sequence as i64, FloatBits(1.0_f64.to_bits()));
        points
    ]);
    ShadowWrite::identified(
        IngressIdentity::new(source_id, sequence, commit_id),
        transaction,
    )
}

/// Works on the oldest write of the queue.
fn work(
    submitter: &mut ShadowSubmitter,
    storage: &mut FakeStorage,
) -> Result<ShadowAck, ShadowWriteFailure> {
    match submitter.next_command() {
        Some(Command::Write(write)) => {
            let (identity, transaction) = submitter.begin_write(write)?;
            let outcome = storage.commit(identity, transaction);
            submitter.finish_write(identity, outcome)
        }
        other => panic!("expected a write, got {other:?}"),
    }
}

/// Works on the oldest flush of the queue.
fn work_flush(
    submitter: &mut ShadowSubmitter,
    storage: &mut FakeStorage,
) -> Result<ShadowFlushAck, ShadowFlushFailure> {
    match submitter.next_command() {
        Some(Command::Flush { source_id, through_sequence }) => {
            let watermarks = watermarks_in(&storage.watermarks, source_id);
            submitter.begin_flush(source_id, through_sequence, watermarks)?;
            let outcome = storage.flush();
            submitter.finish_flush(source_id, through_sequence, outcome)
        }
        other => panic!("expected a flush, got {other:?}"),
    }
}

#[test]
fn queue_capacity_is_a_hard_bound() {
    let mut submitter = runtime(1, 1_048_576);
    submitter.try_submit(write(0, 10)).unwrap();
    let active = submitter.next_command();
    assert!(matches!(active, Some(Command::Write(_))));

    submitter.try_submit(write(1, 11)).unwrap();
    assert!(matches!(
        submitter.try_submit(write(2, 12)),
        Err(SubmitError::Overloaded(_))
    ));
    assert_eq!(submitter.health().queued, 1);
    assert_eq!(submitter.health().queued_points, 1);
}

#[test]
fn read_only_database_cannot_start_a_writer_runtime() {
    assert!(matches!(
        ShadowSubmitter::start(true, &ShadowRuntimeConfig::default(), BTreeMap::new(), snapshot()),
        Err(ShadowStartError::ReadOnlyBackend)
    ));
}

#[test]
fn queued_point_limit_is_a_hard_bound_and_excludes_active_write() {
    let mut submitter = runtime(3, 2);
    submitter.try_submit(write(0, 10)).unwrap();
    assert!(submitter.next_command().is_some());

    submitter.try_submit(write_points(1, 11, 2)).unwrap();
    assert!(matches!(
        submitter.try_submit(write(2, 12)),
        Err(SubmitError::PointBudgetExhausted(_))
    ));
    let health = submitter.health();
    assert_eq!(health.max_queued_points, 2);
    assert_eq!(health.queued, 1);
    assert_eq!(health.queued_points, 2);
}

#[test]
fn queue_reservation_overflow_changes_neither_counter() {
    let mut entries_full = QueueUsage {
        queued: usize::MAX,
        points: 7,
    };
    assert_eq!(
        entries_full.reserve(usize::MAX, usize::MAX, 1),
        Err(QueueReservationError::Entries)
    );
    assert_eq!(
        entries_full,
        QueueUsage {
            queued: usize::MAX,
            points: 7,
        }
    );

    let mut points_full = QueueUsage {
        queued: 0,
        points: usize::MAX,
    };
    assert_eq!(
        points_full.reserve(usize::MAX, usize::MAX, 1),
        Err(QueueReservationError::Points)
    );
    assert_eq!(
        points_full,
        QueueUsage {
            queued: 0,
            points: usize::MAX,
        }
    );
}

#[test]
fn writer_preserves_sequence_and_queue_order() {
    let mut storage = FakeStorage::default();
    let mut submitter = runtime(4, 1_048_576);
    for sequence in 40..44 {
        submitter
            .try_submit(write(sequence, 100 + u128::from(sequence)))
            .unwrap();
    }
    for sequence in 40..44 {
        assert_eq!(
            work(&mut submitter, &mut storage).unwrap().identity.sequence,
            sequence
        );
    }
    let report = submitter
        .finish_close(CloseOutcome::Closed { watermarks: storage.watermarks.clone() })
        .unwrap();
    assert_eq!(
        report.health.source_watermarks.get(&1),
        Some(&IngressWatermarks {
            accepted_through: Some(43),
            durable_through: Some(43),
        })
    );
    assert_eq!(storage.commit_ids, vec![140, 141, 142, 143]);
}

#[test]
fn duplicate_sequence_always_reaches_the_writer_backend() {
    let mut storage = FakeStorage::default();
    let mut submitter = runtime(2, 1_048_576);
    submitter.try_submit(write(0, 7)).unwrap();
    work(&mut submitter, &mut storage).unwrap();
    submitter.try_submit(write(0, 7)).unwrap();
    work(&mut submitter, &mut storage).unwrap();
    assert_eq!(storage.commit_ids, vec![7, 7]);
}

#[test]
fn writer_error_poisons_runtime_and_contains_later_writes() {
    let mut storage = FakeStorage { fail_next: true, ..FakeStorage::default() };
    let mut submitter = runtime(2, 1_048_576);
    submitter.try_submit(write(0, 1)).unwrap();
    submitter.try_submit(write(0, 2)).unwrap();
    assert!(matches!(
        work(&mut submitter, &mut storage),
        Err(ShadowWriteFailure::Writer(_))
    ));
    assert!(matches!(
        work(&mut submitter, &mut storage),
        Err(ShadowWriteFailure::Poisoned { .. })
    ));
    assert_eq!(storage.commit_ids, Vec::<u128>::new());
    assert_eq!(submitter.health().state, ShadowRuntimeState::Poisoned);
    assert!(matches!(
        submitter.try_submit(write(1, 3)),
        Err(SubmitError::Poisoned { .. })
    ));
    assert!(matches!(
        submitter.try_flush(1, 0),
        Err(FlushSubmitError::Poisoned { .. })
    ));
    assert!(submitter.begin_close().is_some());
}

#[test]
fn request_error_allows_a_corrected_retry_and_next_write() {
    let mut storage = FakeStorage { reject_next: true, ..FakeStorage::default() };
    let mut submitter = runtime(2, 1_048_576);
    submitter.try_submit(write(20, 1)).unwrap();
    assert!(matches!(
        work(&mut submitter, &mut storage),
        Err(ShadowWriteFailure::Rejected(Error::InvalidModel(_)))
    ));
    assert_eq!(submitter.health().state, ShadowRuntimeState::Running);
    assert_eq!(submitter.health().last_error, None);

    submitter.try_submit(write(20, 2)).unwrap();
    work(&mut submitter, &mut storage).unwrap();
    submitter.try_submit(write(21, 3)).unwrap();
    work(&mut submitter, &mut storage).unwrap();
    assert_eq!(storage.commit_ids, vec![2, 3]);
}

#[test]
fn clean_shutdown_flushes_manual_durability_and_closes_submissions() {
    let mut storage = FakeStorage { manual: true, ..FakeStorage::default() };
    let mut submitter = runtime(2, 1_048_576);
    submitter.try_submit(write(0, 88)).unwrap();
    let ack = work(&mut submitter, &mut storage).unwrap();
    assert_eq!(ack.durable_through, None);
    assert!(submitter.begin_shutdown());
    assert_eq!(submitter.health().state, ShadowRuntimeState::Closing);
    assert_eq!(submitter.next_command(), Some(Command::Shutdown));
    assert!(submitter.begin_close().is_none());
    storage.flush();
    let report = submitter
        .finish_close(CloseOutcome::Closed { watermarks: storage.watermarks.clone() })
        .unwrap();
    assert_eq!(report.health.state, ShadowRuntimeState::Closed);
    assert_eq!(
        report.health.source_watermarks.get(&1).unwrap().durable_through,
        Some(0)
    );
    assert!(matches!(
        submitter.try_submit(write(1, 89)),
        Err(SubmitError::Closed(_))
    ));
}

#[test]
fn source_flush_checks_through_and_refreshes_all_observed_sources() {
    let mut storage = FakeStorage { manual: true, ..FakeStorage::default() };
    let mut submitter = runtime(4, 1_048_576);
    submitter.try_submit(write_points_for_source(1, 40, 140, 1)).unwrap();
    work(&mut submitter, &mut storage).unwrap();
    submitter.try_submit(write_points_for_source(2, 900, 2900, 1)).unwrap();
    work(&mut submitter, &mut storage).unwrap();

    submitter.try_flush(1, 41).unwrap();
    assert!(matches!(
        work_flush(&mut submitter, &mut storage),
        Err(ShadowFlushFailure::NotAccepted {
            source_id: 1,
            through_sequence: 41,
            accepted_through: Some(40),
        })
    ));
    submitter.try_flush(1, 40).unwrap();
    let flushed = work_flush(&mut submitter, &mut storage).unwrap();
    assert_eq!(flushed.durable_through, Some(40));
    let health = submitter.health();
    assert_eq!(
        health.source_watermarks.get(&1).unwrap().durable_through,
        Some(40)
    );
    assert_eq!(
        health.source_watermarks.get(&2).unwrap().durable_through,
        Some(900)
    );
    assert!(health.last_ack_durable);
}

#[test]
fn a_panic_stays_with_the_writer() {
    let mut storage = FakeStorage { panic_next: true, ..FakeStorage::default() };
    let mut submitter = runtime(2, 1_048_576);
    submitter.try_submit(write(0, 1)).unwrap();
    submitter.try_submit(write(1, 2)).unwrap();
    for _ in 0..2 {
        match work(&mut submitter, &mut storage) {
            Err(ShadowWriteFailure::WriterPanicked { cause }) => {
                assert_eq!(cause, "injected panic");
            }
            other => panic!("expected a panic, got {other:?}"),
        }
    }
    assert_eq!(submitter.health().failed, 2);
    assert_eq!(submitter.health().last_error, Some("injected panic".to_owned()));
    let refusal = submitter.begin_close().unwrap();
    assert_eq!(refusal.message(), "shadow writer closed after a panic: injected panic");
    assert_eq!(refusal.report().health.state, ShadowRuntimeState::Closed);
}

#[test]
fn unidentified_transactions_are_given_back() {
    let mut transaction = Transaction::new();
    transaction.append_points(vec![Point::actual(1, 1, FloatBits(0))]);
    let refused = ShadowWrite::from_identified(transaction).unwrap_err();
    assert_eq!(refused.message(), "shadow writes require an ingress identity");
    let mut transaction = refused.into_transaction();
    assert_eq!(transaction.point_count(), 1);
    transaction.with_ingress_identity(IngressIdentity::new(3, 4, 5));
    let write = ShadowWrite::from_identified(transaction).unwrap();
    assert_eq!((write.source_id(), write.sequence(), write.commit_id()), (3, 4, 5));
    assert_eq!(write.identity(), IngressIdentity::new(3, 4, 5));
}

#[test]
fn waiting_producers_retry_only_a_full_queue() {
    let refused = SubmitError::Overloaded(Box::new(write(1, 2)));
    assert_eq!(refused.message(), "shadow writer queue is full");
    let again = refused.retry(false).unwrap();
    assert_eq!(again.sequence(), 1);
    let late = SubmitError::PointBudgetExhausted(Box::new(again)).retry(true).unwrap_err();
    assert!(matches!(late, SubmitError::DeadlineExceeded(_)));
    assert_eq!(late.message(), "shadow writer queue deadline expired");
    assert_eq!(late.into_write().commit_id(), 2);
    assert!(matches!(
        SubmitError::Closed(Box::new(write(1, 2))).retry(false),
        Err(SubmitError::Closed(_))
    ));
    assert_eq!(FlushSubmitError::Overloaded.retry(false), Ok(()));
    assert_eq!(
        FlushSubmitError::Overloaded.retry(true),
        Err(FlushSubmitError::DeadlineExceeded)
    );
    assert_eq!(FlushSubmitError::Closed.retry(false), Err(FlushSubmitError::Closed));
}

#[test]
fn replies_reach_their_receipts() {
    let identity = IngressIdentity::new(1, 2, 3);
    let receipt = ShadowReceipt { identity };
    assert_eq!(receipt.wait(None), Err(ShadowWriteFailure::WorkerStopped));
    let receipt = ShadowReceipt { identity };
    assert_eq!(receipt.wait_timeout(Waited::Timeout), Err(AckWaitError::Timeout));
    let receipt = ShadowFlushReceipt {};
    assert_eq!(
        receipt.wait_timeout(Waited::Disconnected),
        Err(AckWaitError::WorkerStopped)
    );
    let ack = ShadowFlushAck {
        source_id: 1,
        through_sequence: 2,
        accepted_through: Some(2),
        durable_through: Some(2),
    };
    assert_eq!(ShadowFlushReceipt {}.wait(Some(Ok(ack))), Ok(ack));
    assert_eq!(
        AckWaitError::Timeout.message(),
        "timed out waiting for the shadow acknowledgement"
    );
}

#[test]
fn failures_say_what_happened() {
    assert_eq!(
        ShadowWriteFailure::Rejected(Error::ReadOnly).message(),
        "shadow write was rejected: database is open read-only; reopen it writable to modify it"
    );
    assert_eq!(
        ShadowFlushFailure::NotAccepted {
            source_id: 255,
            through_sequence: 9,
            accepted_through: Some(4),
        }
        .message(),
        "shadow source 000000000000000000000000000000ff has accepted through Some(4), not 9"
    );
    assert_eq!(
        ShadowFlushFailure::NotAccepted {
            source_id: 1,
            through_sequence: 9,
            accepted_through: None,
        }
        .message(),
        "shadow source 00000000000000000000000000000001 has accepted through None, not 9"
    );
    assert_eq!(
        ShadowStartError::Spawn("no threads".to_owned()).message(),
        "could not start shadow writer: no threads"
    );
    assert!(matches!(
        ShadowSubmitter::start(
            false,
            &ShadowRuntimeConfig { queue_capacity: 0, ..ShadowRuntimeConfig::default() },
            BTreeMap::new(),
            snapshot()
        ),
        Err(ShadowStartError::ZeroQueueCapacity)
    ));
}

#[test]
fn maintenance_follows_its_interval() {
    let config = ShadowRuntimeConfig {
        maintenance_interval_nanos: Some(1_000),
        seal_log_bytes_threshold: Some(10),
        ..ShadowRuntimeConfig::default()
    };
    assert!(config.maintenance_due(None));
    assert!(!config.maintenance_due(Some(999)));
    assert!(config.maintenance_due(Some(1_000)));
    assert!(!ShadowRuntimeConfig::default().maintenance_due(None));
    assert!(config.seal_due(11));
    assert!(!config.seal_due(10));
    let mut submitter = runtime(1, 1);
    assert!(submitter.finish_maintenance(Ok(())));
    assert!(submitter.finish_maintenance(Err(Error::ReadOnly)));
    assert_eq!(submitter.health().state, ShadowRuntimeState::Running);
    assert!(!submitter.finish_maintenance(Err(Error::Poisoned)));
    assert_eq!(submitter.health().state, ShadowRuntimeState::Poisoned);
    assert_eq!(storage_micros(5), 5);
    assert_eq!(storage_micros(u128::MAX), i64::MAX);
}

#[test]
fn shutdown_puts_its_pieces_together() {
    let submitter = runtime(1, 1);
    let stopped = shutdown_outcome(false, Ok(()), None, submitter.health()).unwrap_err();
    assert_eq!(stopped.message(), "shadow worker stopped during shutdown");
    let panicked = shutdown_outcome(true, Err("oops".to_owned()), None, submitter.health());
    assert!(matches!(panicked, Err(ShutdownError::WorkerPanicked { .. })));
    assert!(matches!(
        shutdown_outcome(true, Ok(()), None, submitter.health()),
        Err(ShutdownError::WorkerStopped(_))
    ));
    let mut ended = runtime(1, 1);
    ended.worker_ended();
    assert!(!ended.begin_shutdown());
    assert!(matches!(ended.try_flush(1, 1), Err(FlushSubmitError::Closed)));
    let mut closing = runtime(1, 1);
    let failed = closing
        .finish_close(CloseOutcome::Failed(Error::Io("disk".to_owned())))
        .unwrap_err();
    assert_eq!(failed.message(), "shadow close failed: I/O error: disk");
    assert_eq!(failed.report().health.last_error, Some("I/O error: disk".to_owned()));
}

#[test]
fn read_only_store_cannot_start_a_writer_runtime() {
    let store = StoreOpsSnapshot { recovered_tail_bytes: 7, ..snapshot() };
    assert!(matches!(
        ShadowSubmitter::start(true, &ShadowRuntimeConfig::default(), BTreeMap::new(), store),
        Err(ShadowStartError::ReadOnlyBackend)
    ));
}

#[test]
fn ftwdb_exact_ingress_replay_is_deduplicated() {
    let mut storage = FakeStorage { exact: true, ..FakeStorage::default() };
    let mut submitter = runtime(64, 1_048_576);
    submitter.try_submit(write(0, 77)).unwrap();
    let first = work(&mut submitter, &mut storage).unwrap();
    submitter.try_submit(write(0, 77)).unwrap();
    let replay = work(&mut submitter, &mut storage).unwrap();
    assert!(!first.commit.deduplicated);
    assert!(replay.commit.deduplicated);
    assert_eq!(storage.points, 1);

    let restarted = ShadowSubmitter::start(
        false,
        &ShadowRuntimeConfig::default(),
        storage.watermarks.clone(),
        snapshot(),
    )
    .unwrap();
    assert_eq!(
        restarted.health().source_watermarks.get(&1),
        Some(&IngressWatermarks { accepted_through: Some(0), durable_through: Some(0) })
    );
}

#[test]
fn ingress_conflict_is_nonfatal_and_next_sequence_succeeds() {
    let mut storage = FakeStorage { exact: true, ..FakeStorage::default() };
    let mut submitter = runtime(64, 1_048_576);
    submitter.try_submit(write(0, 77)).unwrap();
    work(&mut submitter, &mut storage).unwrap();

    let mut changed = Transaction::new();
    changed.append_points(vec![Point::actual(1, 0, FloatBits(2.0_f64.to_bits()))]);
    let conflict = ShadowWrite::identified(IngressIdentity::new(1, 0, 77), changed);
    submitter.try_submit(conflict).unwrap();
    assert_eq!(
        work(&mut submitter, &mut storage),
        Err(ShadowWriteFailure::Rejected(Error::IngressSourceSequenceConflict {
            source_id: 1,
            sequence: 0,
        }))
    );
    submitter.try_submit(write(1, 78)).unwrap();
    work(&mut submitter, &mut storage).unwrap();
    assert_eq!(submitter.health().state, ShadowRuntimeState::Running);
    assert!(submitter.health().last_ack_durable);
    assert!(submitter.health().database_points >= 1);
}

#[test]
fn ftwdb_batch_rejection_does_not_stop_a_corrected_retry() {
    let mut storage = FakeStorage { max_batch_points: Some(1), ..FakeStorage::default() };
    let mut submitter = runtime(64, 1_048_576);
    submitter.try_submit(write_points(5, 91, 2)).unwrap();
    assert_eq!(
        work(&mut submitter, &mut storage),
        Err(ShadowWriteFailure::Rejected(Error::BatchTooLarge { points: 2, maximum: 1 }))
    );
    assert_eq!(submitter.health().state, ShadowRuntimeState::Running);
    submitter.try_submit(write(5, 91)).unwrap();
    work(&mut submitter, &mut storage).unwrap();
    assert_eq!(storage.points, 1);
}

#[test]
fn flushes_and_rejected_writes_keep_the_order() {
    let mut storage = FakeStorage::default();
    let mut submitter = runtime(8, 1_048_576);
    submitter.try_submit(write(1, 11)).unwrap();
    submitter.try_flush(1, 1).unwrap();
    submitter.try_submit(write(2, 12)).unwrap();
    submitter.try_submit(write(2, 12)).unwrap();
    submitter.try_submit(write(3, 13)).unwrap();
    assert_eq!(work(&mut submitter, &mut storage).unwrap().identity.commit_id, 11);
    assert_eq!(work_flush(&mut submitter, &mut storage).unwrap().through_sequence, 1);
    storage.reject_next = true;
    assert!(matches!(
        work(&mut submitter, &mut storage),
        Err(ShadowWriteFailure::Rejected(_))
    ));
    assert_eq!(work(&mut submitter, &mut storage).unwrap().identity.commit_id, 12);
    assert_eq!(work(&mut submitter, &mut storage).unwrap().identity.commit_id, 13);
    assert_eq!(storage.commit_ids, vec![11, 12, 13]);
}

#[test]
fn a_poisoned_writer_refuses_a_flush_at_once() {
    let mut storage = FakeStorage { fail_next: true, ..FakeStorage::default() };
    let mut submitter = runtime(2, 1_048_576);
    assert_eq!(submitter.check_flush(), Ok(()));
    submitter.try_submit(write(0, 1)).unwrap();
    assert!(work(&mut submitter, &mut storage).is_err());
    let failed = submitter.health().failed;
    assert!(matches!(submitter.check_flush(), Err(ShadowFlushFailure::Poisoned { .. })));
    assert_eq!(submitter.health().failed, failed + 1);
}
