use ftwdb::model::{
    CalendarUnit, Entity, EntityId, FloatBits, Plan, PlanStatus, Point, PropertyValue, Relation,
    RelationId, RollupPolicy, RollupResolution, RollupTier, Run, RunId, RunKind, RunStatus,
    SeriesDefinition, SeriesSemantics,
};
use ftwdb::shadow_protocol::{
    bytes_wanted, decode, decode_payload, encode, error_byte, Ack, AckKind, CommitBatchRequest,
    ErrorCode, ErrorResponse, FlushRequest, HealthRequest, HealthResponse, HealthStatus,
    HelloRequest, HelloResponse, ProtocolError, Request, Response, SyncPolicy, WireMessage,
    COMMIT_BATCH_REQUEST, FRAME_MAGIC, HEADER_BYTES, HEALTH_REQUEST, HELLO_REQUEST,
    MAX_BATCH_POINTS, MAX_FRAME_BYTES, MAX_KEY_BYTES, MAX_METADATA_RECORDS, MAX_PAYLOAD_BYTES,
    PROTOCOL_VERSION,
};
use ftwdb::text_map::TextMap;
use ftwdb::wire::{put_string, put_u128, put_u32, put_u64, Input};
use ftwdb::wire_records::{
    calendar_unit_byte, plan_status_byte, run_kind_byte, run_status_byte, series_semantics_byte,
    take_map, WireRecord,
};

fn bits(value: f64) -> FloatBits {
    FloatBits(value.to_bits())
}

fn metadata() -> (Entity, Relation, SeriesDefinition, Run, Plan) {
    let mut properties = TextMap::new();
    properties.insert("a".to_owned(), PropertyValue::Null);
    properties.insert("b".to_owned(), PropertyValue::Bool(true));
    properties.insert("c".to_owned(), PropertyValue::Integer(-2));
    properties.insert("d".to_owned(), PropertyValue::Float(bits(1.5)));
    properties.insert("e".to_owned(), PropertyValue::Text(String::new()));
    let entity = Entity {
        id: EntityId(1),
        kind: "site".to_owned(),
        name: "Alpha".to_owned(),
        parent: None,
        valid_from: 10,
        valid_to: Some(20),
        properties,
    };
    let relation = Relation {
        id: RelationId(2),
        kind: "contains".to_owned(),
        source: EntityId(1),
        target: EntityId(3),
        valid_from: 10,
        valid_to: None,
        properties: TextMap::new(),
    };
    let series = SeriesDefinition {
        id: 4,
        owner_entity: Some(EntityId(1)),
        owner_relation: None,
        name: "power".to_owned(),
        physical_quantity: "power".to_owned(),
        canonical_unit: "W".to_owned(),
        semantics: SeriesSemantics::Gauge,
        maximum_gap_micros: Some(5),
        rollup_policy: RollupPolicy {
            raw_retain_for_micros: Some(100),
            tiers: vec![
                RollupTier {
                    resolution: RollupResolution::FixedMicros(60),
                    retain_for_micros: None,
                },
                RollupTier {
                    resolution: RollupResolution::Calendar {
                        unit: CalendarUnit::Day,
                        iana_timezone: "UTC".to_owned(),
                    },
                    retain_for_micros: Some(1_000),
                },
            ],
        },
    };
    let run = Run {
        id: RunId(5),
        kind: RunKind::Forecast,
        status: RunStatus::Succeeded,
        created_at: 11,
        knowledge_time: 12,
        workflow: "wf".to_owned(),
        model: String::new(),
        model_version: "v1".to_owned(),
        parent_run: None,
        input_snapshot: None,
        attributes: TextMap::new(),
    };
    let mut objective_terms = TextMap::new();
    objective_terms.insert("cost".to_owned(), bits(1.5));
    let plan = Plan {
        id: 6,
        run_id: RunId(5),
        status: PlanStatus::Candidate,
        horizon_start: 20,
        horizon_end: 80,
        resolution_micros: 60,
        scenario: "base".to_owned(),
        objective_terms,
        objective_value: Some(bits(1.5)),
        supersedes: None,
        attributes: TextMap::new(),
    };
    (entity, relation, series, run, plan)
}

fn batch_request() -> CommitBatchRequest {
    let (entity, relation, series, run, plan) = metadata();
    CommitBatchRequest {
        source_id: 1,
        sequence: 2,
        commit_id: 3,
        entities: vec![entity],
        relations: vec![relation],
        series: vec![series],
        runs: vec![run],
        plans: vec![plan],
        points: vec![Point {
            series_id: 4,
            valid_time: 1_754_382_400_123_456,
            valid_time_end: 1_754_382_700_123_456,
            knowledge_time: 1_754_382_401_123_456,
            change_time: 1_754_382_402_123_456,
            run_id: 5,
            value: bits(-12.5),
            quality: 7,
            flags: 8,
        }],
    }
}

fn batch() -> WireMessage {
    WireMessage::Request(Request::CommitBatch(batch_request()))
}

/// Reads one frame out of a stream of bytes, never more than is wanted.
fn read_frame(stream: &[u8]) -> Result<WireMessage, ProtocolError> {
    let mut received: Vec<u8> = Vec::new();
    loop {
        let wanted = bytes_wanted(&received);
        if wanted == 0 {
            break;
        }
        let from = received.len();
        let to = stream.len().min(from + wanted);
        if to == from {
            break;
        }
        received.extend_from_slice(&stream[from..to]);
    }
    decode(&received)
}

fn decode_hex(text: &str) -> Vec<u8> {
    text.as_bytes()
        .chunks_exact(2)
        .map(|pair| u8::from_str_radix(std::str::from_utf8(pair).unwrap(), 16).unwrap())
        .collect()
}

fn hex(bytes: &[u8]) -> String {
    bytes.iter().map(|byte| format!("{byte:02x}")).collect()
}

#[test]
fn round_trip_full_point() {
    let m = batch();
    let frame = encode(&m).unwrap();
    assert_eq!(decode(&frame).unwrap(), m)
}

#[test]
fn all_message_kinds_round_trip_with_frozen_tags() {
    let messages = vec![
        (
            1,
            WireMessage::Request(Request::Hello(HelloRequest {
                source_id: 1,
                node_id: "n".to_owned(),
                client_version: "v".to_owned(),
                capabilities: 1,
            })),
        ),
        (2, batch()),
        (
            3,
            WireMessage::Request(Request::Flush(FlushRequest {
                source_id: 1,
                through_sequence: 2,
            })),
        ),
        (
            4,
            WireMessage::Request(Request::Health(HealthRequest { nonce: 3 })),
        ),
        (
            128,
            WireMessage::Response(Response::Hello(HelloResponse {
                selected_version: 1,
                session_id: [4; 16],
                server_time_micros: 5,
            })),
        ),
        (
            129,
            WireMessage::Response(Response::Ack(Ack {
                kind: AckKind::CommitBatch,
                source_id: 1,
                sequence: 2,
                commit_id: 3,
                accepted_through_sequence: Some(2),
                durable_through_sequence: None,
                durable: false,
                deduplicated: true,
                frame_offset: 6,
                records: 5,
                points: 1,
                bytes_written: 7,
            })),
        ),
        (
            130,
            WireMessage::Response(Response::Health(HealthResponse {
                nonce: 3,
                source_id: 1,
                status: HealthStatus::Degraded,
                queue_entries: 4,
                accepted_through_sequence: Some(2),
                durable_through_sequence: None,
                overload_count: 0,
                protocol_error_count: 0,
                database_bytes: 0,
                database_points: 0,
                database_commits: 0,
                recovered_tail_bytes: 0,
                sync_policy: SyncPolicy::Always,
                last_ack_durable: false,
            })),
        ),
        (
            131,
            WireMessage::Response(Response::Error(ErrorResponse {
                code: ErrorCode::IdempotencyConflict,
                retryable: false,
                message: "conflict".to_owned(),
            })),
        ),
    ];
    for (kind, message) in messages {
        let frame = encode(&message).unwrap();
        assert_eq!(frame[6], kind);
        assert_eq!(decode(&frame).unwrap(), message);
    }
}

#[test]
fn enum_tags_are_frozen() {
    assert_eq!(
        [
            SeriesSemantics::Gauge,
            SeriesSemantics::IntervalTotal,
            SeriesSemantics::Counter,
            SeriesSemantics::State,
            SeriesSemantics::Event
        ]
        .map(series_semantics_byte),
        [1, 2, 3, 4, 5]
    );
    assert_eq!(
        [CalendarUnit::Day, CalendarUnit::Month, CalendarUnit::Year].map(calendar_unit_byte),
        [1, 2, 3]
    );
    assert_eq!(
        [
            RunKind::Forecast,
            RunKind::Optimization,
            RunKind::Import,
            RunKind::Control,
            RunKind::Reconciliation
        ]
        .map(run_kind_byte),
        [1, 2, 3, 4, 5]
    );
    assert_eq!(
        [
            RunStatus::Pending,
            RunStatus::Running,
            RunStatus::Succeeded,
            RunStatus::Failed,
            RunStatus::Cancelled
        ]
        .map(run_status_byte),
        [1, 2, 3, 4, 5]
    );
    assert_eq!(
        [
            PlanStatus::Candidate,
            PlanStatus::Approved,
            PlanStatus::Deployed,
            PlanStatus::Superseded,
            PlanStatus::Cancelled
        ]
        .map(plan_status_byte),
        [1, 2, 3, 4, 5]
    );
    assert_eq!(
        [
            ErrorCode::InvalidRequest,
            ErrorCode::Overloaded,
            ErrorCode::Internal,
            ErrorCode::Unsupported,
            ErrorCode::IdempotencyConflict
        ]
        .map(error_byte),
        [1, 2, 3, 4, 5]
    );
    let mut always = Vec::new();
    SyncPolicy::Always.put(&mut always).unwrap();
    let mut manual = Vec::new();
    SyncPolicy::Manual.put(&mut manual).unwrap();
    let mut every = Vec::new();
    SyncPolicy::EveryBytes(64).put(&mut every).unwrap();
    assert_eq!(always, [1, 0, 0, 0, 0, 0, 0, 0, 0]);
    assert_eq!(manual, [2, 0, 0, 0, 0, 0, 0, 0, 0]);
    assert_eq!(every, [3, 0, 0, 0, 0, 0, 0, 0, 64]);
    let mut refused = Vec::new();
    assert_eq!(
        SyncPolicy::EveryBytes(0).put(&mut refused),
        Err(ProtocolError::InvalidField("sync every-bytes"))
    );
    assert!(refused.is_empty());
}

#[test]
fn a_refused_health_reply_leaves_what_was_written_before() {
    let reply = |source_id: u128, queue_entries: u32| HealthResponse {
        nonce: 3,
        source_id,
        status: HealthStatus::Healthy,
        queue_entries,
        accepted_through_sequence: None,
        durable_through_sequence: None,
        overload_count: 0,
        protocol_error_count: 0,
        database_bytes: 0,
        database_points: 0,
        database_commits: 0,
        recovered_tail_bytes: 0,
        sync_policy: SyncPolicy::Always,
        last_ack_durable: false,
    };
    let mut out = vec![9];
    assert_eq!(reply(0, 0).put(&mut out), Err(ProtocolError::InvalidField("source_id")));
    assert_eq!(out, [9, 0, 0, 0, 0, 0, 0, 0, 3]);
    let mut out = vec![9];
    assert_eq!(
        reply(0, u32::MAX).put(&mut out),
        Err(ProtocolError::InvalidField("queue_entries"))
    );
    assert_eq!(out, [9]);
}

#[test]
fn every_frame_that_is_read_is_the_frame_of_its_message() {
    let health = WireMessage::Request(Request::Health(HealthRequest { nonce: 7 }));
    let (entity, relation, series, run, plan) = metadata();
    let batch = WireMessage::Request(Request::CommitBatch(CommitBatchRequest {
        source_id: 1,
        sequence: 2,
        commit_id: 3,
        entities: vec![entity],
        relations: vec![relation],
        series: vec![series],
        runs: vec![run],
        plans: vec![plan],
        points: vec![Point::actual(3, 4, FloatBits(0))],
    }));
    for message in [health, batch] {
        let frame = encode(&message).unwrap();
        assert_eq!(encode(&decode(&frame).unwrap()).unwrap(), frame);
        let payload = &frame[HEADER_BYTES..frame.len() - 4];
        let mut read = 0;
        for place in 0..payload.len() {
            let mut other = payload.to_vec();
            other[place] ^= 1;
            if let Ok(found) = decode_payload(frame[6], &other) {
                let again = encode(&found).unwrap();
                assert_eq!(&again[HEADER_BYTES..again.len() - 4], &other[..]);
                read += 1;
            }
        }
        assert!(read > 0);
    }
}

#[test]
fn health_response_decodes_the_legacy_prefix_without_ops_fields() {
    let frame = decode_hex(
        "465457530001820000000027112233445566778800112233445566778899aabbccddeeff02000000030101020304050607080053c62c77",
    );
    match decode(&frame).unwrap() {
        WireMessage::Response(Response::Health(health)) => {
            assert_eq!(health.nonce, 0x1122_3344_5566_7788);
            assert_eq!(health.queue_entries, 3);
            assert_eq!(health.accepted_through_sequence, Some(0x0102_0304_0506_0708));
            assert_eq!(health.durable_through_sequence, None);
            assert_eq!(health.overload_count, 0);
            assert_eq!(health.protocol_error_count, 0);
            assert_eq!(health.sync_policy, SyncPolicy::Always);
            assert!(!health.last_ack_durable);
        }
        other => panic!("expected health, got {other:?}"),
    }
}

#[test]
fn frozen_metadata_encodings() {
    let (entity, relation, series, run, plan) = metadata();
    let mut encoded = Vec::new();
    entity.put(&mut encoded).unwrap();
    assert_eq!(
        hex(&encoded),
        "000000000000000000000000000000010004736974650005416c70686100000000000000000a0100000000000000140000000500016100000162010100016302fffffffffffffffe000164033ff8000000000000000165040000"
    );
    encoded.clear();
    relation.put(&mut encoded).unwrap();
    assert_eq!(
        hex(&encoded),
        "000000000000000000000000000000020008636f6e7461696e730000000000000000000000000000000100000000000000000000000000000003000000000000000a0000000000"
    );
    encoded.clear();
    series.put(&mut encoded).unwrap();
    assert_eq!(
        hex(&encoded),
        "00000000000000040100000000000000000000000000000001000005706f7765720005706f776572000157010100000000000000050100000000000000640000000201000000000000003c00020100035554430100000000000003e8"
    );
    encoded.clear();
    run.put(&mut encoded).unwrap();
    assert_eq!(
        hex(&encoded),
        "000000000000000000000000000000050103000000000000000b000000000000000c00027766000000027631000000000000"
    );
    encoded.clear();
    plan.put(&mut encoded).unwrap();
    assert_eq!(
        hex(&encoded),
        "00000000000000000000000000000006000000000000000000000000000000050100000000000000140000000000000050000000000000003c000462617365000000010004636f73743ff8000000000000013ff80000000000000000000000"
    );
}

#[test]
fn stream_round_trip() {
    let m = batch();
    let b = encode(&m).unwrap();
    assert_eq!(read_frame(&b).unwrap(), m)
}

#[test]
fn rejects_corruption() {
    let mut b = encode(&batch()).unwrap();
    b[HEADER_BYTES + 50] ^= 1;
    assert!(matches!(
        decode(&b),
        Err(ProtocolError::ChecksumMismatch { .. })
    ))
}

#[test]
fn bounds() {
    let mut b = vec![0; HEADER_BYTES];
    b[..4].copy_from_slice(&FRAME_MAGIC);
    b[4..6].copy_from_slice(&PROTOCOL_VERSION.to_be_bytes());
    b[6] = HEALTH_REQUEST;
    b[8..12].copy_from_slice(&((MAX_PAYLOAD_BYTES + 1) as u32).to_be_bytes());
    assert!(matches!(
        read_frame(&b),
        Err(ProtocolError::FrameTooLarge { .. })
    ));
    let mut v = batch_request();
    v.points = vec![v.points[0]; MAX_BATCH_POINTS + 1];
    assert!(encode(&WireMessage::Request(Request::CommitBatch(v))).is_err())
}

#[test]
fn adversarial_counts_lengths_and_trailing_bytes_are_rejected() {
    let mut payload = Vec::new();
    put_u128(&mut payload, 1);
    put_u64(&mut payload, 1);
    put_u128(&mut payload, 1);
    put_u32(&mut payload, (MAX_METADATA_RECORDS + 1) as u32);
    assert!(matches!(
        decode_payload(COMMIT_BATCH_REQUEST, &payload),
        Err(ProtocolError::InvalidField("metadata record count"))
    ));

    let mut oversized_name = 1_u128.to_be_bytes().to_vec();
    oversized_name.extend_from_slice(&[0, 129]);
    assert!(matches!(
        decode_payload(HELLO_REQUEST, &oversized_name),
        Err(ProtocolError::InvalidField("node_id"))
    ));

    let mut health = 1_u64.to_be_bytes().to_vec();
    health.push(0);
    assert!(matches!(
        decode_payload(HEALTH_REQUEST, &health),
        Err(ProtocolError::TrailingBytes { count: 1 })
    ));

    let mut properties = Vec::new();
    put_u32(&mut properties, 2);
    put_string(&mut properties, "b", MAX_KEY_BYTES, "key").unwrap();
    properties.push(0);
    put_string(&mut properties, "a", MAX_KEY_BYTES, "key").unwrap();
    properties.push(0);
    let read: Result<TextMap<PropertyValue>, ProtocolError> = take_map(
        &mut Input::new(&properties),
        "property count",
        "property key",
        "property keys",
    );
    assert!(matches!(
        read,
        Err(ProtocolError::InvalidField("property keys"))
    ));

    let (mut entity, _, _, _, _) = metadata();
    entity
        .properties
        .insert("z".to_owned(), PropertyValue::Float(bits(f64::NAN)));
    assert!(matches!(
        entity.put(&mut Vec::new()),
        Err(ProtocolError::InvalidField("property float"))
    ));
}

#[test]
fn bad_header_rejected_before_body() {
    for (at, value, expected) in [(4, 2, "version"), (6, 99, "type"), (7, 1, "reserved")] {
        let mut h = [0; HEADER_BYTES];
        h[..4].copy_from_slice(&FRAME_MAGIC);
        h[4..6].copy_from_slice(&PROTOCOL_VERSION.to_be_bytes());
        h[6] = HEALTH_REQUEST;
        h[at] = value;
        let e = read_frame(&h).unwrap_err();
        assert!(e.message().contains(expected));
    }
}

#[test]
fn frozen_golden_health_frame() {
    let m = WireMessage::Request(Request::Health(HealthRequest {
        nonce: 0x0102_0304_0506_0708,
    }));
    let expected: Vec<u8> = vec![
        0x46, 0x54, 0x57, 0x53, 0, 1, 4, 0, 0, 0, 0, 8, 1, 2, 3, 4, 5, 6, 7, 8, 36, 198, 92, 216,
    ];
    assert_eq!(encode(&m).unwrap(), expected);
    assert_eq!(decode(&expected).unwrap(), m)
}

#[test]
fn frames_are_wanted_header_first() {
    let frame = encode(&batch()).unwrap();
    assert_eq!(bytes_wanted(&[]), HEADER_BYTES);
    assert_eq!(bytes_wanted(&frame[..5]), HEADER_BYTES - 5);
    assert_eq!(bytes_wanted(&frame[..HEADER_BYTES]), frame.len() - HEADER_BYTES);
    assert_eq!(bytes_wanted(&frame), 0);
    assert!(frame.len() <= MAX_FRAME_BYTES);
    assert_eq!(
        read_frame(&frame[..20]),
        Err(ProtocolError::Truncated { expected: frame.len(), actual: 20 })
    );
    assert_eq!(
        read_frame(&[]),
        Err(ProtocolError::Truncated { expected: HEADER_BYTES, actual: 0 })
    );
}

#[test]
fn errors_say_what_is_wrong() {
    let mut frame = encode(&batch()).unwrap();
    frame.push(0);
    assert_eq!(decode(&frame), Err(ProtocolError::TrailingBytes { count: 1 }));
    assert_eq!(
        ProtocolError::TrailingBytes { count: 1 }.message(),
        "frame has 1 trailing bytes"
    );
    frame[0] = 0;
    assert_eq!(decode(&frame), Err(ProtocolError::InvalidMagic));
    assert_eq!(
        ProtocolError::Truncated { expected: 12, actual: 3 }.message(),
        "truncated frame: expected 12 bytes, got 3"
    );
}
