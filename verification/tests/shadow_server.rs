use ftwdb::error::Error;
use ftwdb::model::{Entity, EntityId};
use ftwdb::shadow_protocol::{
    encode, Ack, AckKind, CommitBatchRequest, ErrorCode, ErrorResponse, FlushRequest,
    HealthRequest, HealthResponse, HealthStatus, HelloRequest, ProtocolError, Request, Response,
    SyncPolicy, WireMessage,
};
use ftwdb::shadow_runtime::{
    AckWaitError, FlushSubmitError, ShadowAck, ShadowFlushAck, ShadowFlushFailure,
    ShadowRuntimeConfig, ShadowSubmitter, ShadowWriteFailure, StoreOpsSnapshot, SubmitError,
};
use ftwdb::shadow_server::{
    check_existing_ancestor, check_private_socket_parent, check_private_store_root,
    check_replaceable, commit_write, end_connection, handle_commit, handle_flush, handle_health,
    is_same_socket, limit_from_env, map_flush_failure, map_flush_submit_error, map_store_error,
    map_submit_error, map_wait_error, map_write_failure, prove_stale, session_id, stable_error,
    ConnectAttempt, FrameEnd, FrameFault, PathFacts, ServerCounters, Session, ShadowServerConfig,
    ShadowServerError, ShadowServerReport, ShadowStopToken, StoreRootError, Turn,
};
use ftwdb::storage::{Commit, Durability, IngressIdentity, IngressWatermarks};
use ftwdb::text_map::TextMap;
use std::collections::BTreeMap;

fn submitter() -> ShadowSubmitter {
    let mut watermarks = BTreeMap::new();
    watermarks.insert(
        17,
        IngressWatermarks { accepted_through: Some(5), durable_through: Some(4) },
    );
    ShadowSubmitter::start(
        false,
        &ShadowRuntimeConfig {
            queue_capacity: 4,
            max_queued_points: 64,
            ..ShadowRuntimeConfig::default()
        },
        watermarks,
        StoreOpsSnapshot {
            bytes: 10,
            points: 11,
            commits: 12,
            recovered_tail_bytes: 13,
            durability: Durability::EveryBytes(64),
            last_ack_durable: true,
        },
    )
    .unwrap()
}

fn hello(source_id: u128) -> WireMessage {
    WireMessage::Request(Request::Hello(HelloRequest {
        source_id,
        node_id: "box-test".to_owned(),
        client_version: "test".to_owned(),
        capabilities: 0,
    }))
}

fn batch(source_id: u128) -> CommitBatchRequest {
    CommitBatchRequest {
        source_id,
        sequence: 5,
        commit_id: 99,
        entities: vec![Entity {
            id: EntityId(1),
            kind: "site".to_owned(),
            name: "test-site".to_owned(),
            parent: None,
            valid_from: 0,
            valid_to: None,
            properties: TextMap::new(),
        }],
        relations: Vec::new(),
        series: Vec::new(),
        runs: Vec::new(),
        plans: Vec::new(),
        points: Vec::new(),
    }
}

fn error_of(message: WireMessage) -> (ErrorCode, bool, String) {
    match message {
        WireMessage::Response(Response::Error(ErrorResponse { code, retryable, message })) => {
            (code, retryable, message)
        }
        other => panic!("expected an error, got {other:?}"),
    }
}

fn answer(turn: Turn) -> WireMessage {
    match turn {
        Turn::Answer(message) => message,
        other => panic!("expected an answer, got {other:?}"),
    }
}

fn directory(owner: u32, mode: u32) -> PathFacts {
    PathFacts { is_directory: true, is_socket: false, owner, mode, device: 1, inode: 2 }
}

fn socket(inode: u64) -> PathFacts {
    PathFacts { is_directory: false, is_socket: true, owner: 7, mode: 0o600, device: 1, inode }
}

#[test]
fn hello_is_required_before_health() {
    let mut session = Session::new();
    let turn = session.receive(
        WireMessage::Request(Request::Health(HealthRequest { nonce: 7 })),
        [0; 16],
        0,
    );
    assert!(matches!(
        answer(turn),
        WireMessage::Response(Response::Error(ErrorResponse {
            code: ErrorCode::InvalidRequest,
            ..
        }))
    ));
}

#[test]
fn hello_then_health_succeeds() {
    let mut session = Session::new();
    assert!(matches!(
        answer(session.receive(hello(17), [3; 16], 9)),
        WireMessage::Response(Response::Hello(_))
    ));
    let turn = session.receive(
        WireMessage::Request(Request::Health(HealthRequest { nonce: 11 })),
        [0; 16],
        0,
    );
    assert_eq!(turn, Turn::Health { nonce: 11, source_id: 17 });
    let counters = ServerCounters { overload_count: 1, protocol_error_count: 2 };
    let reply = handle_health(11, 17, &submitter().health(), &counters);
    assert_eq!(
        reply,
        WireMessage::Response(Response::Health(HealthResponse {
            nonce: 11,
            source_id: 17,
            status: HealthStatus::Healthy,
            queue_entries: 0,
            accepted_through_sequence: Some(5),
            durable_through_sequence: Some(4),
            overload_count: 1,
            protocol_error_count: 2,
            database_bytes: 10,
            database_points: 11,
            database_commits: 12,
            recovered_tail_bytes: 13,
            sync_policy: SyncPolicy::EveryBytes(64),
            last_ack_durable: true,
        }))
    );
    assert!(encode(&reply).is_ok());
}

#[test]
fn frame_boundary_eof_is_clean_but_body_eof_is_an_error() {
    let boundary = FrameFault::Protocol(ProtocolError::Truncated { expected: 12, actual: 0 });
    assert_eq!(end_connection(&boundary, false), FrameEnd::Clean);
    let partial = FrameFault::Protocol(ProtocolError::Truncated { expected: 60, actual: 12 });
    assert!(matches!(end_connection(&partial, false), FrameEnd::Refuse(_)));
    assert_eq!(end_connection(&partial, true), FrameEnd::Clean);
    let outdated = FrameFault::Protocol(ProtocolError::UnsupportedVersion(2));
    match end_connection(&outdated, false) {
        FrameEnd::Refuse(message) => assert_eq!(error_of(message).0, ErrorCode::Unsupported),
        FrameEnd::Clean => panic!("an outdated client is told so"),
    }
    match end_connection(&FrameFault::Stream, false) {
        FrameEnd::Refuse(message) => assert_eq!(error_of(message).0, ErrorCode::InvalidRequest),
        FrameEnd::Clean => panic!("a stalled client is told so"),
    }
}

#[test]
fn hello_binds_source_id_and_rejects_a_different_source() {
    let mut session = Session::new();
    assert!(matches!(
        answer(session.receive(hello(17), [0; 16], 0)),
        WireMessage::Response(Response::Hello(_))
    ));
    let turn = session.receive(
        WireMessage::Request(Request::Flush(FlushRequest { source_id: 18, through_sequence: 1 })),
        [0; 16],
        0,
    );
    match answer(turn) {
        WireMessage::Response(Response::Error(ErrorResponse {
            code: ErrorCode::InvalidRequest,
            retryable: false,
            message,
        })) => assert_eq!(message, "invalid request"),
        other => panic!("expected a stable invalid-request error, got {other:?}"),
    }
}

#[test]
fn a_connection_keeps_its_source() {
    let mut session = Session::new();
    assert_eq!(error_of(answer(session.receive(hello(0), [0; 16], 0))).0, ErrorCode::InvalidRequest);
    assert_eq!(session.source_id, None);
    answer(session.receive(hello(17), [0; 16], 0));
    assert_eq!(error_of(answer(session.receive(hello(18), [0; 16], 0))).0, ErrorCode::InvalidRequest);
    assert_eq!(session.source_id, Some(17));
    assert!(matches!(
        session.receive(WireMessage::Request(Request::CommitBatch(batch(17))), [0; 16], 0),
        Turn::Commit(_)
    ));
    let other = session.receive(WireMessage::Request(Request::CommitBatch(batch(18))), [0; 16], 0);
    assert_eq!(error_of(answer(other)), (ErrorCode::InvalidRequest, false, "invalid request".to_owned()));
    assert_eq!(
        session.receive(
            WireMessage::Request(Request::Flush(FlushRequest { source_id: 17, through_sequence: 3 })),
            [0; 16],
            0
        ),
        Turn::Flush { source_id: 17, through_sequence: 3 }
    );
    let response = stable_error(ErrorCode::Internal, true);
    assert_eq!(error_of(answer(session.receive(response, [0; 16], 0))).0, ErrorCode::InvalidRequest);
}

#[test]
fn commit_replay_and_conflict_use_durable_ingress_identity() {
    let write = commit_write(batch(17));
    assert_eq!(write.identity(), IngressIdentity::new(17, 5, 99));
    let (_, transaction) = submitter().begin_write(commit_write(batch(17))).unwrap();
    assert_eq!(transaction.record_count(), 1);
    assert_eq!(transaction.ingress_identity(), Some(write.identity()));
    let acknowledgement = ShadowAck {
        identity: write.identity(),
        accepted_through: Some(5),
        durable_through: Some(5),
        commit: Commit {
            frame_offset: 64,
            points: 0,
            records: 1,
            bytes_written: 100,
            durable: true,
            deduplicated: true,
        },
    };
    assert_eq!(
        handle_commit(write.identity(), Ok(Ok(acknowledgement))),
        WireMessage::Response(Response::Ack(Ack {
            kind: AckKind::CommitBatch,
            source_id: 17,
            sequence: 5,
            commit_id: 99,
            accepted_through_sequence: Some(5),
            durable_through_sequence: Some(5),
            durable: true,
            deduplicated: true,
            frame_offset: 64,
            records: 1,
            points: 0,
            bytes_written: 100,
        }))
    );
    let conflict = handle_commit(
        write.identity(),
        Ok(Err(ShadowWriteFailure::Rejected(Error::IngressSourceSequenceConflict {
            source_id: 17,
            sequence: 5,
        }))),
    );
    assert!(matches!(
        conflict,
        WireMessage::Response(Response::Error(ErrorResponse {
            code: ErrorCode::IdempotencyConflict,
            retryable: false,
            ..
        }))
    ));
}

#[test]
fn flushes_are_acknowledged_only_when_durable() {
    let done = ShadowFlushAck {
        source_id: 17,
        through_sequence: 5,
        accepted_through: Some(6),
        durable_through: Some(5),
    };
    match handle_flush(17, 5, Ok(Ok(done))) {
        WireMessage::Response(Response::Ack(ack)) => {
            assert_eq!((ack.kind, ack.sequence, ack.commit_id), (AckKind::Flush, 5, 0));
            assert!(ack.durable);
        }
        other => panic!("expected an acknowledgement, got {other:?}"),
    }
    let behind = ShadowFlushAck { durable_through: Some(4), ..done };
    assert_eq!(error_of(handle_flush(17, 5, Ok(Ok(behind)))).0, ErrorCode::Internal);
    let never = ShadowFlushAck { durable_through: None, ..done };
    assert_eq!(error_of(handle_flush(17, 5, Ok(Ok(never)))).0, ErrorCode::Internal);
    assert_eq!(
        error_of(handle_flush(17, 5, Err(AckWaitError::Timeout))),
        (ErrorCode::Internal, true, "shadow writer unavailable".to_owned())
    );
}

#[test]
fn refusals_are_mapped_to_stable_errors() {
    let write = || Box::new(commit_write(batch(17)));
    assert_eq!(
        error_of(map_submit_error(SubmitError::Overloaded(write()))),
        (ErrorCode::Overloaded, true, "shadow writer overloaded".to_owned())
    );
    assert_eq!(
        error_of(map_submit_error(SubmitError::PointBudgetExhausted(write()))).0,
        ErrorCode::Overloaded
    );
    assert_eq!(
        error_of(map_submit_error(SubmitError::Closed(write()))),
        (ErrorCode::Internal, true, "shadow writer unavailable".to_owned())
    );
    assert_eq!(
        error_of(map_write_failure(ShadowWriteFailure::Writer(Error::Poisoned))).0,
        ErrorCode::Internal
    );
    assert_eq!(
        error_of(map_store_error(&Error::BatchTooLarge { points: 2, maximum: 1 })),
        (ErrorCode::InvalidRequest, false, "invalid request".to_owned())
    );
    assert_eq!(
        error_of(map_store_error(&Error::IngressCommitIdConflict { commit_id: 1 })).2,
        "idempotency conflict"
    );
    assert_eq!(error_of(map_store_error(&Error::ReadOnly)).0, ErrorCode::Internal);
    assert_eq!(
        error_of(map_flush_submit_error(FlushSubmitError::DeadlineExceeded)).0,
        ErrorCode::Overloaded
    );
    let early = ShadowFlushFailure::NotAccepted {
        source_id: 1,
        through_sequence: 2,
        accepted_through: None,
    };
    assert_eq!(
        error_of(map_flush_failure(early)),
        (ErrorCode::InvalidRequest, true, "invalid request".to_owned())
    );
    assert_eq!(error_of(map_wait_error(AckWaitError::WorkerStopped)).0, ErrorCode::Internal);
    assert_eq!(
        error_of(stable_error(ErrorCode::Unsupported, false)).2,
        "unsupported protocol version"
    );
}

#[test]
fn bind_refuses_to_replace_regular_file() {
    let file = PathFacts { is_directory: false, is_socket: false, owner: 7, mode: 0o600, device: 1, inode: 2 };
    assert_eq!(
        check_replaceable("/run/shadow.sock", &file),
        Err(ShadowServerError::ExistingPathIsNotSocket("/run/shadow.sock".to_owned()))
    );
    assert_eq!(check_replaceable("/run/shadow.sock", &socket(2)), Ok(()));
}

#[test]
fn bind_rejects_group_writable_existing_parent() {
    assert_eq!(
        check_private_socket_parent("/run", &directory(7, 0o40770), 7),
        Err(ShadowServerError::UnsafeSocketParent("/run".to_owned()))
    );
}

#[test]
fn bind_rejects_world_accessible_existing_parent() {
    assert_eq!(
        check_private_socket_parent("/run", &directory(7, 0o40755), 7),
        Err(ShadowServerError::UnsafeSocketParent("/run".to_owned()))
    );
    assert_eq!(check_private_socket_parent("/run", &directory(7, 0o40700), 7), Ok(()));
    assert!(check_private_socket_parent("/run", &directory(8, 0o40700), 7).is_err());
}

#[test]
fn bind_refuses_to_create_under_a_world_writable_ancestor() {
    assert!(matches!(
        check_existing_ancestor("/tmp", &directory(7, 0o40777), 7),
        Err(ShadowServerError::UnsafeSocketParent(_))
    ));
    assert_eq!(check_existing_ancestor("/home", &directory(7, 0o40755), 7), Ok(()));
}

#[test]
fn bind_refuses_a_live_socket() {
    assert_eq!(
        prove_stale("/run/shadow.sock", &socket(2), ConnectAttempt::Connected, &socket(2)),
        Err(ShadowServerError::SocketInUse("/run/shadow.sock".to_owned()))
    );
}

#[test]
fn bind_replaces_a_proven_stale_socket() {
    assert_eq!(
        prove_stale("/run/shadow.sock", &socket(2), ConnectAttempt::Refused, &socket(2)),
        Ok(())
    );
    let changed =
        prove_stale("/run/shadow.sock", &socket(2), ConnectAttempt::Refused, &socket(3));
    assert_eq!(
        changed.unwrap_err().message(),
        "could not prove that /run/shadow.sock is stale: socket path changed during the stale check"
    );
    assert!(matches!(
        prove_stale(
            "/run/shadow.sock",
            &socket(2),
            ConnectAttempt::Failed("denied".to_owned()),
            &socket(2)
        ),
        Err(ShadowServerError::CouldNotProveSocketStale { .. })
    ));
    assert!(is_same_socket(&socket(2), &socket(2)));
    assert!(!is_same_socket(&socket(2), &socket(3)));
}

#[test]
fn listener_rejects_a_peer_with_the_wrong_effective_uid() {
    let mut report = ShadowServerReport::default();
    report.accept_client();
    assert!(!report.authorize(1000, 1001));
    assert_eq!(report.accepted_clients, 1);
    assert_eq!(report.peer_auth_failures, 1);
    assert_eq!(report.client_errors, 0);
    report.accept_client();
    assert!(report.authorize(1001, 1001));
    report.finish_client(false);
    report.finish_client(true);
    assert_eq!(report.client_errors, 1);
}

#[test]
fn limits_must_leave_time_to_wait() {
    let mut config = ShadowServerConfig::new("/run/shadow.sock".to_owned(), 7);
    assert_eq!(config.allowed_peer_uid, 7);
    assert_eq!(config.io_timeout_nanos, 2_000_000_000);
    assert!(config.validate().is_ok());
    config.io_timeout_nanos = 0;
    assert_eq!(
        config.validate().unwrap_err().message(),
        "shadow server I/O error: shadow server timeouts must be positive"
    );
    let mut stop = ShadowStopToken::new();
    assert!(!stop.is_stopped());
    stop.stop();
    assert!(stop.is_stopped());
}

#[test]
fn rejects_a_store_root_visible_to_other_users() {
    assert!(matches!(
        check_private_store_root("/store", &directory(7, 0o40755), 7),
        Err(StoreRootError::WrongMode(_))
    ));
    assert_eq!(check_private_store_root("/store", &directory(7, 0o40700), 7), Ok(()));
    assert_eq!(
        check_private_store_root("/store", &directory(8, 0o40700), 7).unwrap_err().message(),
        "store root has another owner: /store"
    );
}

#[test]
fn rejects_a_symlink_store_root() {
    let link = PathFacts { is_directory: false, is_socket: false, owner: 7, mode: 0o777, device: 1, inode: 2 };
    assert!(matches!(
        check_private_store_root("/store", &link, 7),
        Err(StoreRootError::NotADirectory(_))
    ));
}

#[test]
fn limits_come_from_the_environment() {
    assert_eq!(limit_from_env("LIMIT", None, 512), Ok(512));
    assert_eq!(limit_from_env("LIMIT", Some("7"), 512), Ok(7));
    for bad in ["0", "-1", "", "many"] {
        assert_eq!(
            limit_from_env("LIMIT", Some(bad), 512),
            Err("LIMIT must be a positive byte count".to_owned())
        );
    }
}

#[test]
fn session_identifiers_start_with_the_time() {
    let id = session_id(0x0102_0304_0506_0708, 0x1112_1314_1516_1718);
    assert_eq!(
        id,
        [1, 2, 3, 4, 5, 6, 7, 8, 0x11, 0x12, 0x13, 0x14, 0x15, 0x16, 0x17, 0x18]
    );
}

#[test]
fn refusals_and_overload_are_counted() {
    let mut counters = ServerCounters { overload_count: 0, protocol_error_count: u64::MAX - 1 };
    let refused = end_connection(
        &FrameFault::Protocol(ProtocolError::Truncated { expected: 16, actual: 3 }),
        false,
    );
    counters.count_end(&refused);
    counters.count_end(&refused);
    counters.count_end(&FrameEnd::Clean);
    assert_eq!(counters.protocol_error_count, u64::MAX);
    counters.count_answer(&map_submit_error(SubmitError::Overloaded(Box::new(
        commit_write(batch(17)),
    ))));
    assert_eq!(counters.overload_count, 1);
    if let FrameEnd::Refuse(answer) = refused {
        counters.count_answer(&answer);
    }
    assert_eq!(counters.overload_count, 1);
}
