//! Bounded version-one wire protocol for the shadow sidecar.
//!
//! All integers and IEEE-754 bit patterns use big-endian byte order. A frame is
//! `magic[4] | version:u16 | kind:u8 | reserved:u8 | payload_len:u32 | payload
//! | crc32:u32`; the CRC-32 covers the header and the payload.
//!
//! A commit payload starts with `source_id:u128 | sequence:u64 | commit_id:u128`,
//! then six collections in this exact order: entities, relations, series, runs,
//! plans, points. Each collection starts with a `u32` count. Text is `u16 bytes |
//! UTF-8`. Optional values are `presence:u8` (`0` or `1`) followed by the value
//! when present. Maps are a `u32` count followed by key/value pairs in ascending
//! key order. A point is exactly 72 bytes.
use crate::bytes::{bytes_equal, put_be, put_bytes, read_be};
#[allow(unused_imports)]
use crate::bytes::{
    be, from_be, lemma_be_len, lemma_be_round_trip, lemma_from_be_round_trip, lemma_pow256_values,
};
use crate::checksum::crc32;
#[allow(unused_imports)]
use crate::checksum::crc32_of;
#[allow(unused_imports)]
use crate::model::{
    checked, finite, plan_fault, series_fault, EntityModel, PlanModel, RelationModel, RunModel,
    SeriesModel,
};
use crate::model::{Entity, Plan, Point, Relation, Run, SeriesDefinition};
use crate::text::{put_decimal, put_hex};
#[allow(unused_imports)]
use crate::text::{decimal, hex};
#[allow(unused_imports)]
use crate::wire::{
    emit_be, emit_bool, emit_check, emit_i64, emit_option_u64, emit_raw, emit_string, emit_u8,
    emitted, lemma_bool, lemma_i64, lemma_option_u64, lemma_raw, lemma_string, lemma_u128,
    lemma_u16, lemma_u32, lemma_u64, lemma_u8, scan_bool, scan_check, scan_count, scan_i64,
    scan_option_u64, scan_raw, scan_string, scan_u128, scan_u16, scan_u32, scan_u64, scan_u8,
    scanned, starts, Emit, Scan,
};
use crate::wire::{
    put_bool, put_i64, put_option_u64, put_raw, put_string, put_u128, put_u16, put_u32, put_u64,
    put_u8, Input,
};
#[allow(unused_imports)]
use crate::wire_records::{
    all_ordered, emit_all, field_fault, lemma_all_faults_stay, lemma_all_read_back, lemma_count,
    scan_all, unless,
};
use crate::wire_records::{put_all, take_all, WireRecord};
use vstd::prelude::*;
#[allow(unused_imports)]
use vstd::utf8::encode_utf8;
use vstd::string::*;

verus! {

pub const PROTOCOL_VERSION: u16 = 1;

pub const MAX_FRAME_BYTES: usize = 4194304;

pub const MAX_BATCH_POINTS: usize = 16384;

pub const MAX_METADATA_RECORDS: usize = 16384;

pub const MAX_QUEUE_ENTRIES: u32 = 65536;

pub const MAX_PROPERTIES: usize = 1024;

pub const MAX_ROLLUP_TIERS: usize = 64;

pub const MAX_TEXT_BYTES: usize = 4096;

pub const MAX_KEY_BYTES: usize = 256;

pub const MAX_ERROR_TEXT_BYTES: usize = 512;

pub const MAX_NODE_ID_BYTES: usize = 128;

pub const MAX_CLIENT_VERSION_BYTES: usize = 64;

pub const HEADER_BYTES: usize = 12;

pub const CHECKSUM_BYTES: usize = 4;

pub const MAX_PAYLOAD_BYTES: usize = 4194288;

pub const POINT_BYTES: usize = 72;

pub const HELLO_REQUEST: u8 = 1;

pub const COMMIT_BATCH_REQUEST: u8 = 2;

pub const FLUSH_REQUEST: u8 = 3;

pub const HEALTH_REQUEST: u8 = 4;

pub const HELLO_RESPONSE: u8 = 128;

pub const ACK_RESPONSE: u8 = 129;

pub const HEALTH_RESPONSE: u8 = 130;

pub const ERROR_RESPONSE: u8 = 131;

/// The first four bytes of every frame.
pub const FRAME_MAGIC: [u8; 4] = [0x46, 0x54, 0x57, 0x53];

#[derive(Debug, PartialEq)]
pub enum WireMessage {
    Request(Request),
    Response(Response),
}

#[derive(Debug, PartialEq)]
pub enum Request {
    Hello(HelloRequest),
    CommitBatch(CommitBatchRequest),
    Flush(FlushRequest),
    Health(HealthRequest),
}

#[derive(Debug, PartialEq)]
pub enum Response {
    Hello(HelloResponse),
    Ack(Ack),
    Health(HealthResponse),
    Error(ErrorResponse),
}

#[derive(Debug, PartialEq, Eq)]
pub struct HelloRequest {
    pub source_id: u128,
    pub node_id: String,
    pub client_version: String,
    pub capabilities: u64,
}

#[derive(Debug, PartialEq, Eq)]
pub struct HelloResponse {
    pub selected_version: u16,
    pub session_id: [u8; 16],
    pub server_time_micros: i64,
}

/// One sidecar identity and sequence form the retry key. The receiver must reject
/// the same identity with different canonical bytes as an idempotency conflict.
#[derive(Debug, PartialEq)]
pub struct CommitBatchRequest {
    pub source_id: u128,
    pub sequence: u64,
    pub commit_id: u128,
    pub entities: Vec<Entity>,
    pub relations: Vec<Relation>,
    pub series: Vec<SeriesDefinition>,
    pub runs: Vec<Run>,
    pub plans: Vec<Plan>,
    /// Each point carries all 72 bytes and UTC microsecond times.
    pub points: Vec<Point>,
}

#[derive(Clone, Copy, Debug, PartialEq, Eq, Structural)]
pub struct FlushRequest {
    pub source_id: u128,
    pub through_sequence: u64,
}

#[derive(Clone, Copy, Debug, PartialEq, Eq, Structural)]
pub struct HealthRequest {
    pub nonce: u64,
}

#[derive(Clone, Copy, Debug, PartialEq, Eq, Structural)]
pub enum AckKind {
    CommitBatch,
    Flush,
}

#[derive(Clone, Copy, Debug, PartialEq, Eq)]
pub struct Ack {
    pub kind: AckKind,
    pub source_id: u128,
    pub sequence: u64,
    /// Zero for a flush acknowledgement.
    pub commit_id: u128,
    pub accepted_through_sequence: Option<u64>,
    pub durable_through_sequence: Option<u64>,
    pub durable: bool,
    pub deduplicated: bool,
    pub frame_offset: u64,
    pub records: u32,
    pub points: u32,
    pub bytes_written: u64,
}

#[derive(Clone, Copy, Debug, PartialEq, Eq, Structural)]
pub enum HealthStatus {
    Healthy,
    Degraded,
    Unavailable,
}

/// Sidecar sync policy reported on health, so that operators can see the live
/// writer without a second endpoint.
#[derive(Clone, Copy, Debug, PartialEq, Eq, Structural)]
pub enum SyncPolicy {
    Always,
    Manual,
    EveryBytes(u64),
}

impl Default for SyncPolicy {
    fn default() -> (policy: Self)
        ensures
            policy == SyncPolicy::Always,
    {
        SyncPolicy::Always
    }
}

/// The name of a sync policy, as operators write it.
pub open spec fn sync_policy_text(policy: SyncPolicy) -> Seq<char> {
    match policy {
        SyncPolicy::Always => "always"@,
        SyncPolicy::Manual => "manual"@,
        SyncPolicy::EveryBytes(bytes) => "every-bytes:"@ + decimal(bytes as nat),
    }
}

impl SyncPolicy {
    /// The policy as operators write it.
    pub fn text(&self) -> (text: String)
        ensures
            text@ == sync_policy_text(*self),
    {
        match self {
            SyncPolicy::Always => "always".to_owned(),
            SyncPolicy::Manual => "manual".to_owned(),
            SyncPolicy::EveryBytes(bytes) => {
                let mut text = "every-bytes:".to_owned();
                put_decimal(&mut text, *bytes as u128);
                text
            },
        }
    }
}

#[derive(Clone, Copy, Debug, PartialEq, Eq)]
pub struct HealthResponse {
    pub nonce: u64,
    pub source_id: u128,
    pub status: HealthStatus,
    pub queue_entries: u32,
    pub accepted_through_sequence: Option<u64>,
    pub durable_through_sequence: Option<u64>,
    pub overload_count: u64,
    pub protocol_error_count: u64,
    pub database_bytes: u64,
    pub database_points: u64,
    pub database_commits: u64,
    pub recovered_tail_bytes: u64,
    pub sync_policy: SyncPolicy,
    pub last_ack_durable: bool,
}

#[derive(Debug, PartialEq, Eq)]
pub struct ErrorResponse {
    pub code: ErrorCode,
    pub retryable: bool,
    pub message: String,
}

#[derive(Clone, Copy, Debug, PartialEq, Eq, Structural)]
pub enum ErrorCode {
    InvalidRequest,
    Overloaded,
    Internal,
    Unsupported,
    IdempotencyConflict,
}

/// Why a frame cannot be written or read.
#[allow(inconsistent_fields)]
#[derive(Clone, Copy, Debug, PartialEq, Eq)]
pub enum ProtocolError {
    Truncated { expected: usize, actual: usize },
    TrailingBytes { count: usize },
    InvalidMagic,
    UnsupportedVersion(u16),
    UnknownMessageType(u8),
    ReservedBitsSet(u8),
    FrameTooLarge { declared: usize, maximum: usize },
    ChecksumMismatch { expected: u32, actual: u32 },
    InvalidField(&'static str),
    InvalidEnumValue { field: &'static str, value: u8 },
}

/// What a protocol error says.
pub open spec fn protocol_error_text(error: ProtocolError) -> Seq<char> {
    match error {
        ProtocolError::Truncated { expected, actual } => "truncated frame: expected "@ + decimal(
            expected as nat,
        ) + " bytes, got "@ + decimal(actual as nat),
        ProtocolError::TrailingBytes { count } => "frame has "@ + decimal(count as nat)
            + " trailing bytes"@,
        ProtocolError::InvalidMagic => "invalid shadow protocol magic"@,
        ProtocolError::UnsupportedVersion(v) => "unsupported shadow protocol version "@ + decimal(
            v as nat,
        ),
        ProtocolError::UnknownMessageType(v) => "unknown shadow message type "@ + decimal(v as nat),
        ProtocolError::ReservedBitsSet(v) => "reserved header bits are set: "@ + decimal(v as nat),
        ProtocolError::FrameTooLarge { declared, maximum } => "frame declares "@ + decimal(
            declared as nat,
        ) + " bytes; maximum is "@ + decimal(maximum as nat),
        ProtocolError::ChecksumMismatch { expected, actual } =>
            "shadow frame checksum mismatch: expected 0x"@ + hex(expected as nat, 8) + ", got 0x"@
            + hex(actual as nat, 8),
        ProtocolError::InvalidField(v) => "invalid shadow protocol field: "@ + v@,
        ProtocolError::InvalidEnumValue { field, value } => "invalid "@ + field@ + " enum value "@
            + decimal(value as nat),
    }
}

impl ProtocolError {
    /// What the error says.
    pub fn message(&self) -> (text: String)
        ensures
            text@ == protocol_error_text(*self),
    {
        match self {
            ProtocolError::Truncated { expected, actual } => {
                let mut text = "truncated frame: expected ".to_owned();
                put_decimal(&mut text, *expected as u128);
                text.append(" bytes, got ");
                put_decimal(&mut text, *actual as u128);
                text
            },
            ProtocolError::TrailingBytes { count } => {
                let mut text = "frame has ".to_owned();
                put_decimal(&mut text, *count as u128);
                text.append(" trailing bytes");
                text
            },
            ProtocolError::InvalidMagic => "invalid shadow protocol magic".to_owned(),
            ProtocolError::UnsupportedVersion(v) => {
                let mut text = "unsupported shadow protocol version ".to_owned();
                put_decimal(&mut text, *v as u128);
                text
            },
            ProtocolError::UnknownMessageType(v) => {
                let mut text = "unknown shadow message type ".to_owned();
                put_decimal(&mut text, *v as u128);
                text
            },
            ProtocolError::ReservedBitsSet(v) => {
                let mut text = "reserved header bits are set: ".to_owned();
                put_decimal(&mut text, *v as u128);
                text
            },
            ProtocolError::FrameTooLarge { declared, maximum } => {
                let mut text = "frame declares ".to_owned();
                put_decimal(&mut text, *declared as u128);
                text.append(" bytes; maximum is ");
                put_decimal(&mut text, *maximum as u128);
                text
            },
            ProtocolError::ChecksumMismatch { expected, actual } => {
                let mut text = "shadow frame checksum mismatch: expected 0x".to_owned();
                put_hex(&mut text, *expected as u128, 8);
                text.append(", got 0x");
                put_hex(&mut text, *actual as u128, 8);
                text
            },
            ProtocolError::InvalidField(v) => {
                let mut text = "invalid shadow protocol field: ".to_owned();
                text.append(v);
                text
            },
            ProtocolError::InvalidEnumValue { field, value } => {
                let mut text = "invalid ".to_owned();
                text.append(field);
                text.append(" enum value ");
                put_decimal(&mut text, *value as u128);
                text
            },
        }
    }
}

// Models of the messages.

pub struct HelloModel {
    pub source_id: u128,
    pub node_id: Seq<char>,
    pub client_version: Seq<char>,
    pub capabilities: u64,
}

impl DeepView for HelloRequest {
    type V = HelloModel;

    open spec fn deep_view(&self) -> HelloModel {
        HelloModel {
            source_id: self.source_id,
            node_id: self.node_id@,
            client_version: self.client_version@,
            capabilities: self.capabilities,
        }
    }
}

pub struct HelloReplyModel {
    pub selected_version: u16,
    pub session_id: Seq<u8>,
    pub server_time_micros: i64,
}

impl DeepView for HelloResponse {
    type V = HelloReplyModel;

    open spec fn deep_view(&self) -> HelloReplyModel {
        HelloReplyModel {
            selected_version: self.selected_version,
            session_id: self.session_id@,
            server_time_micros: self.server_time_micros,
        }
    }
}

pub struct BatchModel {
    pub source_id: u128,
    pub sequence: u64,
    pub commit_id: u128,
    pub entities: Seq<EntityModel>,
    pub relations: Seq<RelationModel>,
    pub series: Seq<SeriesModel>,
    pub runs: Seq<RunModel>,
    pub plans: Seq<PlanModel>,
    pub points: Seq<Point>,
}

impl DeepView for CommitBatchRequest {
    type V = BatchModel;

    open spec fn deep_view(&self) -> BatchModel {
        BatchModel {
            source_id: self.source_id,
            sequence: self.sequence,
            commit_id: self.commit_id,
            entities: self.entities.deep_view(),
            relations: self.relations.deep_view(),
            series: self.series.deep_view(),
            runs: self.runs.deep_view(),
            plans: self.plans.deep_view(),
            points: self.points.deep_view(),
        }
    }
}

pub struct ErrorModel {
    pub code: ErrorCode,
    pub retryable: bool,
    pub message: Seq<char>,
}

impl DeepView for ErrorResponse {
    type V = ErrorModel;

    open spec fn deep_view(&self) -> ErrorModel {
        ErrorModel { code: self.code, retryable: self.retryable, message: self.message@ }
    }
}

impl DeepView for FlushRequest {
    type V = FlushRequest;

    open spec fn deep_view(&self) -> FlushRequest {
        *self
    }
}

impl DeepView for HealthRequest {
    type V = HealthRequest;

    open spec fn deep_view(&self) -> HealthRequest {
        *self
    }
}

impl DeepView for Ack {
    type V = Ack;

    open spec fn deep_view(&self) -> Ack {
        *self
    }
}

impl DeepView for HealthResponse {
    type V = HealthResponse;

    open spec fn deep_view(&self) -> HealthResponse {
        *self
    }
}

/// What a message holds.
pub enum MessageModel {
    Hello(HelloModel),
    CommitBatch(BatchModel),
    Flush(FlushRequest),
    Health(HealthRequest),
    HelloReply(HelloReplyModel),
    Ack(Ack),
    HealthReply(HealthResponse),
    Error(ErrorModel),
}

impl DeepView for WireMessage {
    type V = MessageModel;

    open spec fn deep_view(&self) -> MessageModel {
        match *self {
            WireMessage::Request(Request::Hello(v)) => MessageModel::Hello(v.deep_view()),
            WireMessage::Request(Request::CommitBatch(v)) => MessageModel::CommitBatch(
                v.deep_view(),
            ),
            WireMessage::Request(Request::Flush(v)) => MessageModel::Flush(v),
            WireMessage::Request(Request::Health(v)) => MessageModel::Health(v),
            WireMessage::Response(Response::Hello(v)) => MessageModel::HelloReply(v.deep_view()),
            WireMessage::Response(Response::Ack(v)) => MessageModel::Ack(v),
            WireMessage::Response(Response::Health(v)) => MessageModel::HealthReply(v),
            WireMessage::Response(Response::Error(v)) => MessageModel::Error(v.deep_view()),
        }
    }
}

/// The one-byte kind of a message.
pub open spec fn kind_of(m: MessageModel) -> u8 {
    match m {
        MessageModel::Hello(_) => HELLO_REQUEST,
        MessageModel::CommitBatch(_) => COMMIT_BATCH_REQUEST,
        MessageModel::Flush(_) => FLUSH_REQUEST,
        MessageModel::Health(_) => HEALTH_REQUEST,
        MessageModel::HelloReply(_) => HELLO_RESPONSE,
        MessageModel::Ack(_) => ACK_RESPONSE,
        MessageModel::HealthReply(_) => HEALTH_RESPONSE,
        MessageModel::Error(_) => ERROR_RESPONSE,
    }
}

/// Whether some message has the kind `kind`.
pub open spec fn known_kind(kind: u8) -> bool {
    1 <= kind <= 4 || 128 <= kind <= 131
}

pub open spec fn status_tag(v: HealthStatus) -> u8 {
    match v {
        HealthStatus::Healthy => 1,
        HealthStatus::Degraded => 2,
        HealthStatus::Unavailable => 3,
    }
}

pub open spec fn status_of(tag: u8) -> Option<HealthStatus> {
    match tag {
        1 => Some(HealthStatus::Healthy),
        2 => Some(HealthStatus::Degraded),
        3 => Some(HealthStatus::Unavailable),
        _ => None,
    }
}

pub open spec fn scan_status(b: Seq<u8>, s: Scan) -> (HealthStatus, Scan) {
    let (tag, s) = scan_u8(b, s);
    (
        status_of(tag)->0,
        scan_check(
            s,
            if status_of(tag) is Some {
                None
            } else {
                Some(ProtocolError::InvalidEnumValue { field: "health status", value: tag })
            },
        ),
    )
}

pub fn status_byte(v: HealthStatus) -> (tag: u8)
    ensures
        tag == status_tag(v),
        status_of(tag) == Some(v),
{
    match v {
        HealthStatus::Healthy => 1,
        HealthStatus::Degraded => 2,
        HealthStatus::Unavailable => 3,
    }
}

pub fn status_from(tag: u8) -> (v: Result<HealthStatus, ProtocolError>)
    ensures
        v == match status_of(tag) {
            Some(v) => Ok::<HealthStatus, ProtocolError>(v),
            None => Err(ProtocolError::InvalidEnumValue { field: "health status", value: tag }),
        },
{
    match tag {
        1 => Ok(HealthStatus::Healthy),
        2 => Ok(HealthStatus::Degraded),
        3 => Ok(HealthStatus::Unavailable),
        value => Err(ProtocolError::InvalidEnumValue { field: "health status", value }),
    }
}

pub open spec fn error_tag(v: ErrorCode) -> u8 {
    match v {
        ErrorCode::InvalidRequest => 1,
        ErrorCode::Overloaded => 2,
        ErrorCode::Internal => 3,
        ErrorCode::Unsupported => 4,
        ErrorCode::IdempotencyConflict => 5,
    }
}

pub open spec fn error_of(tag: u8) -> Option<ErrorCode> {
    match tag {
        1 => Some(ErrorCode::InvalidRequest),
        2 => Some(ErrorCode::Overloaded),
        3 => Some(ErrorCode::Internal),
        4 => Some(ErrorCode::Unsupported),
        5 => Some(ErrorCode::IdempotencyConflict),
        _ => None,
    }
}

pub open spec fn scan_error(b: Seq<u8>, s: Scan) -> (ErrorCode, Scan) {
    let (tag, s) = scan_u8(b, s);
    (
        error_of(tag)->0,
        scan_check(
            s,
            if error_of(tag) is Some {
                None
            } else {
                Some(ProtocolError::InvalidEnumValue { field: "error code", value: tag })
            },
        ),
    )
}

pub fn error_byte(v: ErrorCode) -> (tag: u8)
    ensures
        tag == error_tag(v),
        error_of(tag) == Some(v),
{
    match v {
        ErrorCode::InvalidRequest => 1,
        ErrorCode::Overloaded => 2,
        ErrorCode::Internal => 3,
        ErrorCode::Unsupported => 4,
        ErrorCode::IdempotencyConflict => 5,
    }
}

pub fn error_from(tag: u8) -> (v: Result<ErrorCode, ProtocolError>)
    ensures
        v == match error_of(tag) {
            Some(v) => Ok::<ErrorCode, ProtocolError>(v),
            None => Err(ProtocolError::InvalidEnumValue { field: "error code", value: tag }),
        },
{
    match tag {
        1 => Ok(ErrorCode::InvalidRequest),
        2 => Ok(ErrorCode::Overloaded),
        3 => Ok(ErrorCode::Internal),
        4 => Ok(ErrorCode::Unsupported),
        5 => Ok(ErrorCode::IdempotencyConflict),
        value => Err(ProtocolError::InvalidEnumValue { field: "error code", value }),
    }
}

pub open spec fn ack_kind_tag(v: AckKind) -> u8 {
    match v {
        AckKind::CommitBatch => 1,
        AckKind::Flush => 2,
    }
}

pub open spec fn ack_kind_of(tag: u8) -> Option<AckKind> {
    match tag {
        1 => Some(AckKind::CommitBatch),
        2 => Some(AckKind::Flush),
        _ => None,
    }
}

pub open spec fn scan_ack_kind(b: Seq<u8>, s: Scan) -> (AckKind, Scan) {
    let (tag, s) = scan_u8(b, s);
    (
        ack_kind_of(tag)->0,
        scan_check(
            s,
            if ack_kind_of(tag) is Some {
                None
            } else {
                Some(ProtocolError::InvalidEnumValue { field: "ack kind", value: tag })
            },
        ),
    )
}

pub fn ack_kind_byte(v: AckKind) -> (tag: u8)
    ensures
        tag == ack_kind_tag(v),
        ack_kind_of(tag) == Some(v),
{
    match v {
        AckKind::CommitBatch => 1,
        AckKind::Flush => 2,
    }
}

pub fn ack_kind_from(tag: u8) -> (v: Result<AckKind, ProtocolError>)
    ensures
        v == match ack_kind_of(tag) {
            Some(v) => Ok::<AckKind, ProtocolError>(v),
            None => Err(ProtocolError::InvalidEnumValue { field: "ack kind", value: tag }),
        },
{
    match tag {
        1 => Ok(AckKind::CommitBatch),
        2 => Ok(AckKind::Flush),
        value => Err(ProtocolError::InvalidEnumValue { field: "ack kind", value }),
    }
}

/// The fault of a message that must name its source and does not.
pub open spec fn source_fault(source_id: u128) -> Option<&'static str> {
    if source_id == 0 {
        Some("source_id")
    } else {
        None
    }
}

pub open spec fn hello_fault(v: HelloModel) -> Option<&'static str> {
    source_fault(v.source_id)
}

impl HelloRequest {
    fn validate(&self) -> (outcome: Result<(), &'static str>)
        ensures
            outcome == checked(hello_fault(self.deep_view())),
    {
        if self.source_id == 0 {
            return Err("source_id");
        }
        Ok(())
    }
}

pub open spec fn flush_fault(v: FlushRequest) -> Option<&'static str> {
    source_fault(v.source_id)
}

impl FlushRequest {
    fn validate(&self) -> (outcome: Result<(), &'static str>)
        ensures
            outcome == checked(flush_fault(self.deep_view())),
    {
        if self.source_id == 0 {
            return Err("source_id");
        }
        Ok(())
    }
}

pub open spec fn ack_fault(v: Ack) -> Option<&'static str> {
    source_fault(v.source_id)
}

impl Ack {
    fn validate(&self) -> (outcome: Result<(), &'static str>)
        ensures
            outcome == checked(ack_fault(self.deep_view())),
    {
        if self.source_id == 0 {
            return Err("source_id");
        }
        Ok(())
    }
}

impl WireRecord for HelloRequest {
    open spec fn emit(s: Emit, v: HelloModel) -> Emit {
        let s = emit_check(s, field_fault(hello_fault(v)));
        let s = emit_be(s, v.source_id as nat, 16);
        let s = emit_string(s, v.node_id, MAX_NODE_ID_BYTES as nat, "node_id");
        let s = emit_string(s, v.client_version, MAX_CLIENT_VERSION_BYTES as nat, "client_version");
        emit_be(s, v.capabilities as nat, 8)
    }

    open spec fn scan(b: Seq<u8>, s: Scan) -> (HelloModel, Scan) {
        let (source_id, s) = scan_u128(b, s);
        let (node_id, s) = scan_string(b, s, MAX_NODE_ID_BYTES as nat, "node_id");
        let (client_version, s) = scan_string(b, s, MAX_CLIENT_VERSION_BYTES as nat, "client_version");
        let (capabilities, s) = scan_u64(b, s);
        let v = HelloModel {
            source_id,
            node_id,
            client_version,
            capabilities,
        };
        (v, scan_check(s, field_fault(hello_fault(v))))
    }

    open spec fn ordered(v: HelloModel) -> bool {
        true
    }

    #[verifier::spinoff_prover]
    fn put(&self, out: &mut Vec<u8>) -> (outcome: Result<(), ProtocolError>) {
        if let Err(reason) = self.validate() {
            return Err(ProtocolError::InvalidField(reason));
        }
        put_u128(out, self.source_id);
        if let Err(e) = put_string(out, self.node_id.as_str(), MAX_NODE_ID_BYTES, "node_id") {
            return Err(e);
        }
        if let Err(e) = put_string(out, self.client_version.as_str(), MAX_CLIENT_VERSION_BYTES, "client_version") {
            return Err(e);
        }
        put_u64(out, self.capabilities);
        Ok(())
    }

    #[verifier::spinoff_prover]
    fn take<'a>(input: &mut Input<'a>) -> (outcome: Result<Self, ProtocolError>) {
        let source_id: u128 = input.u128()?;
        let node_id: String = input.string(MAX_NODE_ID_BYTES, "node_id")?;
        let client_version: String = input.string(MAX_CLIENT_VERSION_BYTES, "client_version")?;
        let capabilities: u64 = input.u64()?;
        let record = HelloRequest {
            source_id,
            node_id,
            client_version,
            capabilities,
        };
        if let Err(reason) = record.validate() {
            return Err(ProtocolError::InvalidField(reason));
        }
        Ok(record)
    }

    proof fn faults_stay(b: Seq<u8>, v: HelloModel) {
    }

    #[verifier::spinoff_prover]
    proof fn read_back(p: Seq<u8>, v: HelloModel, q: Seq<u8>, b: Seq<u8>) {
        let s0 = Emit::Bytes(p);
        let s0 = emit_check(s0, field_fault(hello_fault(v)));
        let s1 = emit_be(s0, v.source_id as nat, 16);
        let s2 = emit_string(s1, v.node_id, MAX_NODE_ID_BYTES as nat, "node_id");
        let s3 = emit_string(s2, v.client_version, MAX_CLIENT_VERSION_BYTES as nat, "client_version");
        let s4 = emit_be(s3, v.capabilities as nat, 8);
        lemma_u64(s3->Bytes_0, v.capabilities, q, b);
        lemma_string(s2->Bytes_0, v.client_version, s3->Bytes_0, b, MAX_CLIENT_VERSION_BYTES as nat, "client_version");
        lemma_string(s1->Bytes_0, v.node_id, s2->Bytes_0, b, MAX_NODE_ID_BYTES as nat, "node_id");
        lemma_u128(p, v.source_id, s1->Bytes_0, b);
    }
}

impl WireRecord for FlushRequest {
    open spec fn emit(s: Emit, v: FlushRequest) -> Emit {
        let s = emit_check(s, field_fault(flush_fault(v)));
        let s = emit_be(s, v.source_id as nat, 16);
        emit_be(s, v.through_sequence as nat, 8)
    }

    open spec fn scan(b: Seq<u8>, s: Scan) -> (FlushRequest, Scan) {
        let (source_id, s) = scan_u128(b, s);
        let (through_sequence, s) = scan_u64(b, s);
        let v = FlushRequest {
            source_id,
            through_sequence,
        };
        (v, scan_check(s, field_fault(flush_fault(v))))
    }

    open spec fn ordered(v: FlushRequest) -> bool {
        true
    }

    #[verifier::spinoff_prover]
    fn put(&self, out: &mut Vec<u8>) -> (outcome: Result<(), ProtocolError>) {
        if let Err(reason) = self.validate() {
            return Err(ProtocolError::InvalidField(reason));
        }
        put_u128(out, self.source_id);
        put_u64(out, self.through_sequence);
        Ok(())
    }

    #[verifier::spinoff_prover]
    fn take<'a>(input: &mut Input<'a>) -> (outcome: Result<Self, ProtocolError>) {
        let source_id: u128 = input.u128()?;
        let through_sequence: u64 = input.u64()?;
        let record = FlushRequest {
            source_id,
            through_sequence,
        };
        if let Err(reason) = record.validate() {
            return Err(ProtocolError::InvalidField(reason));
        }
        Ok(record)
    }

    proof fn faults_stay(b: Seq<u8>, v: FlushRequest) {
    }

    #[verifier::spinoff_prover]
    proof fn read_back(p: Seq<u8>, v: FlushRequest, q: Seq<u8>, b: Seq<u8>) {
        let s0 = Emit::Bytes(p);
        let s0 = emit_check(s0, field_fault(flush_fault(v)));
        let s1 = emit_be(s0, v.source_id as nat, 16);
        let s2 = emit_be(s1, v.through_sequence as nat, 8);
        lemma_u64(s1->Bytes_0, v.through_sequence, q, b);
        lemma_u128(p, v.source_id, s1->Bytes_0, b);
    }
}

impl WireRecord for HealthRequest {
    open spec fn emit(s: Emit, v: HealthRequest) -> Emit {
        emit_be(s, v.nonce as nat, 8)
    }

    open spec fn scan(b: Seq<u8>, s: Scan) -> (HealthRequest, Scan) {
        let (nonce, s) = scan_u64(b, s);
        let v = HealthRequest {
            nonce,
        };
        (v, s)
    }

    open spec fn ordered(v: HealthRequest) -> bool {
        true
    }

    #[verifier::spinoff_prover]
    fn put(&self, out: &mut Vec<u8>) -> (outcome: Result<(), ProtocolError>) {
        put_u64(out, self.nonce);
        Ok(())
    }

    #[verifier::spinoff_prover]
    fn take<'a>(input: &mut Input<'a>) -> (outcome: Result<Self, ProtocolError>) {
        let nonce: u64 = input.u64()?;
        let record = HealthRequest {
            nonce,
        };
        Ok(record)
    }

    proof fn faults_stay(b: Seq<u8>, v: HealthRequest) {
    }

    #[verifier::spinoff_prover]
    proof fn read_back(p: Seq<u8>, v: HealthRequest, q: Seq<u8>, b: Seq<u8>) {
        let s0 = Emit::Bytes(p);
        let s1 = emit_be(s0, v.nonce as nat, 8);
        lemma_u64(p, v.nonce, q, b);
    }
}

impl WireRecord for Ack {
    open spec fn emit(s: Emit, v: Ack) -> Emit {
        let s = emit_check(s, field_fault(ack_fault(v)));
        let s = emit_u8(s, ack_kind_tag(v.kind));
        let s = emit_be(s, v.source_id as nat, 16);
        let s = emit_be(s, v.sequence as nat, 8);
        let s = emit_be(s, v.commit_id as nat, 16);
        let s = emit_option_u64(s, v.accepted_through_sequence);
        let s = emit_option_u64(s, v.durable_through_sequence);
        let s = emit_bool(s, v.durable);
        let s = emit_bool(s, v.deduplicated);
        let s = emit_be(s, v.frame_offset as nat, 8);
        let s = emit_be(s, v.records as nat, 4);
        let s = emit_be(s, v.points as nat, 4);
        emit_be(s, v.bytes_written as nat, 8)
    }

    open spec fn scan(b: Seq<u8>, s: Scan) -> (Ack, Scan) {
        let (kind, s) = scan_ack_kind(b, s);
        let (source_id, s) = scan_u128(b, s);
        let (sequence, s) = scan_u64(b, s);
        let (commit_id, s) = scan_u128(b, s);
        let (accepted_through_sequence, s) = scan_option_u64(b, s, "accepted watermark");
        let (durable_through_sequence, s) = scan_option_u64(b, s, "durable watermark");
        let (durable, s) = scan_bool(b, s, "durable");
        let (deduplicated, s) = scan_bool(b, s, "deduplicated");
        let (frame_offset, s) = scan_u64(b, s);
        let (records, s) = scan_u32(b, s);
        let (points, s) = scan_u32(b, s);
        let (bytes_written, s) = scan_u64(b, s);
        let v = Ack {
            kind,
            source_id,
            sequence,
            commit_id,
            accepted_through_sequence,
            durable_through_sequence,
            durable,
            deduplicated,
            frame_offset,
            records,
            points,
            bytes_written,
        };
        (v, scan_check(s, field_fault(ack_fault(v))))
    }

    open spec fn ordered(v: Ack) -> bool {
        true
    }

    #[verifier::spinoff_prover]
    fn put(&self, out: &mut Vec<u8>) -> (outcome: Result<(), ProtocolError>) {
        if let Err(reason) = self.validate() {
            return Err(ProtocolError::InvalidField(reason));
        }
        put_u8(out, ack_kind_byte(self.kind));
        put_u128(out, self.source_id);
        put_u64(out, self.sequence);
        put_u128(out, self.commit_id);
        put_option_u64(out, self.accepted_through_sequence);
        put_option_u64(out, self.durable_through_sequence);
        put_bool(out, self.durable);
        put_bool(out, self.deduplicated);
        put_u64(out, self.frame_offset);
        put_u32(out, self.records);
        put_u32(out, self.points);
        put_u64(out, self.bytes_written);
        Ok(())
    }

    #[verifier::spinoff_prover]
    fn take<'a>(input: &mut Input<'a>) -> (outcome: Result<Self, ProtocolError>) {
        let kind: AckKind = ack_kind_from(input.u8()?)?;
        let source_id: u128 = input.u128()?;
        let sequence: u64 = input.u64()?;
        let commit_id: u128 = input.u128()?;
        let accepted_through_sequence: Option<u64> = input.watermark("accepted watermark")?;
        let durable_through_sequence: Option<u64> = input.watermark("durable watermark")?;
        let durable: bool = input.boolean("durable")?;
        let deduplicated: bool = input.boolean("deduplicated")?;
        let frame_offset: u64 = input.u64()?;
        let records: u32 = input.u32()?;
        let points: u32 = input.u32()?;
        let bytes_written: u64 = input.u64()?;
        let record = Ack {
            kind,
            source_id,
            sequence,
            commit_id,
            accepted_through_sequence,
            durable_through_sequence,
            durable,
            deduplicated,
            frame_offset,
            records,
            points,
            bytes_written,
        };
        if let Err(reason) = record.validate() {
            return Err(ProtocolError::InvalidField(reason));
        }
        Ok(record)
    }

    proof fn faults_stay(b: Seq<u8>, v: Ack) {
    }

    #[verifier::spinoff_prover]
    proof fn read_back(p: Seq<u8>, v: Ack, q: Seq<u8>, b: Seq<u8>) {
        let s0 = Emit::Bytes(p);
        let s0 = emit_check(s0, field_fault(ack_fault(v)));
        let s1 = emit_u8(s0, ack_kind_tag(v.kind));
        let s2 = emit_be(s1, v.source_id as nat, 16);
        let s3 = emit_be(s2, v.sequence as nat, 8);
        let s4 = emit_be(s3, v.commit_id as nat, 16);
        let s5 = emit_option_u64(s4, v.accepted_through_sequence);
        let s6 = emit_option_u64(s5, v.durable_through_sequence);
        let s7 = emit_bool(s6, v.durable);
        let s8 = emit_bool(s7, v.deduplicated);
        let s9 = emit_be(s8, v.frame_offset as nat, 8);
        let s10 = emit_be(s9, v.records as nat, 4);
        let s11 = emit_be(s10, v.points as nat, 4);
        let s12 = emit_be(s11, v.bytes_written as nat, 8);
        lemma_u64(s11->Bytes_0, v.bytes_written, q, b);
        lemma_u32(s10->Bytes_0, v.points, s11->Bytes_0, b);
        lemma_u32(s9->Bytes_0, v.records, s10->Bytes_0, b);
        lemma_u64(s8->Bytes_0, v.frame_offset, s9->Bytes_0, b);
        lemma_bool(s7->Bytes_0, v.deduplicated, s8->Bytes_0, b, "deduplicated");
        lemma_bool(s6->Bytes_0, v.durable, s7->Bytes_0, b, "durable");
        lemma_option_u64(s5->Bytes_0, v.durable_through_sequence, s6->Bytes_0, b, "durable watermark");
        lemma_option_u64(s4->Bytes_0, v.accepted_through_sequence, s5->Bytes_0, b, "accepted watermark");
        lemma_u128(s3->Bytes_0, v.commit_id, s4->Bytes_0, b);
        lemma_u64(s2->Bytes_0, v.sequence, s3->Bytes_0, b);
        lemma_u128(s1->Bytes_0, v.source_id, s2->Bytes_0, b);
        lemma_u8(p, ack_kind_tag(v.kind), s1->Bytes_0, b);
    }
}

impl WireRecord for ErrorResponse {
    open spec fn emit(s: Emit, v: ErrorModel) -> Emit {
        let s = emit_u8(s, error_tag(v.code));
        let s = emit_bool(s, v.retryable);
        emit_string(s, v.message, MAX_ERROR_TEXT_BYTES as nat, "error message")
    }

    open spec fn scan(b: Seq<u8>, s: Scan) -> (ErrorModel, Scan) {
        let (code, s) = scan_error(b, s);
        let (retryable, s) = scan_bool(b, s, "retryable");
        let (message, s) = scan_string(b, s, MAX_ERROR_TEXT_BYTES as nat, "error message");
        let v = ErrorModel {
            code,
            retryable,
            message,
        };
        (v, s)
    }

    open spec fn ordered(v: ErrorModel) -> bool {
        true
    }

    #[verifier::spinoff_prover]
    fn put(&self, out: &mut Vec<u8>) -> (outcome: Result<(), ProtocolError>) {
        put_u8(out, error_byte(self.code));
        put_bool(out, self.retryable);
        put_string(out, self.message.as_str(), MAX_ERROR_TEXT_BYTES, "error message")
    }

    #[verifier::spinoff_prover]
    fn take<'a>(input: &mut Input<'a>) -> (outcome: Result<Self, ProtocolError>) {
        let code: ErrorCode = error_from(input.u8()?)?;
        let retryable: bool = input.boolean("retryable")?;
        let message: String = input.string(MAX_ERROR_TEXT_BYTES, "error message")?;
        let record = ErrorResponse {
            code,
            retryable,
            message,
        };
        Ok(record)
    }

    proof fn faults_stay(b: Seq<u8>, v: ErrorModel) {
    }

    #[verifier::spinoff_prover]
    proof fn read_back(p: Seq<u8>, v: ErrorModel, q: Seq<u8>, b: Seq<u8>) {
        let s0 = Emit::Bytes(p);
        let s1 = emit_u8(s0, error_tag(v.code));
        let s2 = emit_bool(s1, v.retryable);
        let s3 = emit_string(s2, v.message, MAX_ERROR_TEXT_BYTES as nat, "error message");
        lemma_string(s2->Bytes_0, v.message, q, b, MAX_ERROR_TEXT_BYTES as nat, "error message");
        lemma_bool(s1->Bytes_0, v.retryable, s2->Bytes_0, b, "retryable");
        lemma_u8(p, error_tag(v.code), s1->Bytes_0, b);
    }
}

impl WireRecord for HelloResponse {
    open spec fn emit(s: Emit, v: HelloReplyModel) -> Emit {
        let s = emit_check(s, version_fault(v.selected_version));
        let s = emit_be(s, v.selected_version as nat, 2);
        let s = emit_raw(s, v.session_id);
        emit_i64(s, v.server_time_micros)
    }

    open spec fn scan(b: Seq<u8>, s: Scan) -> (HelloReplyModel, Scan) {
        let (selected_version, s) = scan_u16(b, s);
        let s = scan_check(s, version_fault(selected_version));
        let (session_id, s) = scan_raw(b, s, 16);
        let (server_time_micros, s) = scan_i64(b, s);
        (HelloReplyModel { selected_version, session_id, server_time_micros }, s)
    }

    open spec fn ordered(v: HelloReplyModel) -> bool {
        v.session_id.len() == 16
    }

    fn put(&self, out: &mut Vec<u8>) -> (outcome: Result<(), ProtocolError>) {
        if self.selected_version != PROTOCOL_VERSION {
            return Err(ProtocolError::UnsupportedVersion(self.selected_version));
        }
        put_u16(out, self.selected_version);
        put_raw(out, self.session_id.as_slice());
        put_i64(out, self.server_time_micros);
        Ok(())
    }

    fn take<'a>(input: &mut Input<'a>) -> (outcome: Result<Self, ProtocolError>) {
        let selected_version: u16 = input.u16()?;
        if selected_version != PROTOCOL_VERSION {
            return Err(ProtocolError::UnsupportedVersion(selected_version));
        }
        let bytes = input.take(16)?;
        let mut session_id: [u8; 16] = [0; 16];
        let mut i: usize = 0;
        while i < 16
            invariant
                i <= 16,
                bytes@.len() == 16,
                forall|j: int| 0 <= j < i ==> session_id@[j] == bytes@[j],
            decreases 16 - i,
        {
            session_id[i] = bytes[i];
            i = i + 1;
        }
        assert(session_id@ =~= bytes@);
        let server_time_micros: i64 = input.i64()?;
        Ok(HelloResponse { selected_version, session_id, server_time_micros })
    }

    proof fn faults_stay(b: Seq<u8>, v: HelloReplyModel) {
    }

    proof fn read_back(p: Seq<u8>, v: HelloReplyModel, q: Seq<u8>, b: Seq<u8>) {
        let s0 = emit_check(Emit::Bytes(p), version_fault(v.selected_version));
        let s1 = emit_be(s0, v.selected_version as nat, 2);
        let s2 = emit_raw(s1, v.session_id);
        lemma_i64(s2->Bytes_0, v.server_time_micros, q, b);
        lemma_raw(s1->Bytes_0, v.session_id, s2->Bytes_0, b);
        lemma_u16(p, v.selected_version, s1->Bytes_0, b);
    }
}

/// The fault of a version that this protocol does not speak.
pub open spec fn version_fault(version: u16) -> Option<ProtocolError> {
    if version == PROTOCOL_VERSION {
        None
    } else {
        Some(ProtocolError::UnsupportedVersion(version))
    }
}

impl WireRecord for SyncPolicy {
    open spec fn emit(s: Emit, v: SyncPolicy) -> Emit {
        match v {
            SyncPolicy::Always => emit_be(emit_u8(s, 1), 0, 8),
            SyncPolicy::Manual => emit_be(emit_u8(s, 2), 0, 8),
            SyncPolicy::EveryBytes(bytes) => {
                let s = emit_check(s, unless(bytes != 0, "sync every-bytes"));
                emit_be(emit_u8(s, 3), bytes as nat, 8)
            },
        }
    }

    open spec fn scan(b: Seq<u8>, s: Scan) -> (SyncPolicy, Scan) {
        let (tag, s) = scan_u8(b, s);
        if 1 <= tag <= 3 {
            let (bytes, s) = scan_u64(b, s);
            let s = scan_check(s, unless((tag == 3) == (bytes != 0), "sync every-bytes"));
            if tag == 1 {
                (SyncPolicy::Always, s)
            } else if tag == 2 {
                (SyncPolicy::Manual, s)
            } else {
                (SyncPolicy::EveryBytes(bytes), s)
            }
        } else {
            (
                SyncPolicy::Always,
                scan_check(
                    s,
                    Some(ProtocolError::InvalidEnumValue { field: "sync policy", value: tag }),
                ),
            )
        }
    }

    open spec fn ordered(v: SyncPolicy) -> bool {
        true
    }

    fn put(&self, out: &mut Vec<u8>) -> (outcome: Result<(), ProtocolError>) {
        match self {
            SyncPolicy::Always => {
                put_u8(out, 1);
                put_u64(out, 0);
            },
            SyncPolicy::Manual => {
                put_u8(out, 2);
                put_u64(out, 0);
            },
            SyncPolicy::EveryBytes(bytes) => {
                if *bytes == 0 {
                    return Err(ProtocolError::InvalidField("sync every-bytes"));
                }
                put_u8(out, 3);
                put_u64(out, *bytes);
            },
        }
        Ok(())
    }

    fn take<'a>(input: &mut Input<'a>) -> (outcome: Result<Self, ProtocolError>) {
        let tag: u8 = input.u8()?;
        match tag {
            1 => {
                let bytes: u64 = input.u64()?;
                if bytes != 0 {
                    return Err(ProtocolError::InvalidField("sync every-bytes"));
                }
                Ok(SyncPolicy::Always)
            },
            2 => {
                let bytes: u64 = input.u64()?;
                if bytes != 0 {
                    return Err(ProtocolError::InvalidField("sync every-bytes"));
                }
                Ok(SyncPolicy::Manual)
            },
            3 => {
                let bytes: u64 = input.u64()?;
                if bytes == 0 {
                    return Err(ProtocolError::InvalidField("sync every-bytes"));
                }
                Ok(SyncPolicy::EveryBytes(bytes))
            },
            value => Err(ProtocolError::InvalidEnumValue { field: "sync policy", value }),
        }
    }

    proof fn faults_stay(b: Seq<u8>, v: SyncPolicy) {
    }

    proof fn read_back(p: Seq<u8>, v: SyncPolicy, q: Seq<u8>, b: Seq<u8>) {
        let (tag, bytes): (u8, u64) = match v {
            SyncPolicy::Always => (1, 0),
            SyncPolicy::Manual => (2, 0),
            SyncPolicy::EveryBytes(bytes) => (3, bytes),
        };
        let m = emit_u8(Emit::Bytes(p), tag)->Bytes_0;
        lemma_u64(m, bytes, q, b);
        lemma_u8(p, tag, m, b);
    }
}

impl DeepView for SyncPolicy {
    type V = SyncPolicy;

    open spec fn deep_view(&self) -> SyncPolicy {
        *self
    }
}

pub open spec fn queue_fault(queue_entries: u32) -> Option<&'static str> {
    if queue_entries > MAX_QUEUE_ENTRIES {
        Some("queue_entries")
    } else {
        None
    }
}

pub open spec fn health_fault(v: HealthResponse) -> Option<&'static str> {
    match queue_fault(v.queue_entries) {
        Some(field) => Some(field),
        None => source_fault(v.source_id),
    }
}

impl HealthResponse {
    fn validate(&self) -> (outcome: Result<(), &'static str>)
        ensures
            outcome == checked(health_fault(*self)),
    {
        if self.queue_entries > MAX_QUEUE_ENTRIES {
            return Err("queue_entries");
        }
        if self.source_id == 0 {
            return Err("source_id");
        }
        Ok(())
    }
}

/// The counters behind the fields that every health response has. An older
/// sidecar leaves them out; they then read as zero.
pub open spec fn scan_counters(b: Seq<u8>, s: Scan, v: HealthResponse) -> (HealthResponse, Scan) {
    let (overload_count, s) = scan_u64(b, s);
    let (protocol_error_count, s) = scan_u64(b, s);
    let (database_bytes, s) = scan_u64(b, s);
    let (database_points, s) = scan_u64(b, s);
    let (database_commits, s) = scan_u64(b, s);
    let (recovered_tail_bytes, s) = scan_u64(b, s);
    let (sync_policy, s) = SyncPolicy::scan(b, s);
    let (last_ack_durable, s) = scan_bool(b, s, "last_ack_durable");
    (
        HealthResponse {
            overload_count,
            protocol_error_count,
            database_bytes,
            database_points,
            database_commits,
            recovered_tail_bytes,
            sync_policy,
            last_ack_durable,
            ..v
        },
        s,
    )
}

fn take_counters<'a>(input: &mut Input<'a>, v: HealthResponse) -> (outcome: Result<
    HealthResponse,
    ProtocolError,
>)
    requires
        old(input).ok(),
    ensures
        final(input).ok(),
        final(input).data() == old(input).data(),
        scanned(
            outcome,
            scan_counters(old(input).data(), old(input).scan(), v),
            final(input).scan(),
        ),
{
    let overload_count: u64 = input.u64()?;
    let protocol_error_count: u64 = input.u64()?;
    let database_bytes: u64 = input.u64()?;
    let database_points: u64 = input.u64()?;
    let database_commits: u64 = input.u64()?;
    let recovered_tail_bytes: u64 = input.u64()?;
    let sync_policy: SyncPolicy = SyncPolicy::take(input)?;
    let last_ack_durable: bool = input.boolean("last_ack_durable")?;
    Ok(
        HealthResponse {
            overload_count,
            protocol_error_count,
            database_bytes,
            database_points,
            database_commits,
            recovered_tail_bytes,
            sync_policy,
            last_ack_durable,
            ..v
        },
    )
}

/// Whether bytes follow the position.
pub open spec fn more(b: Seq<u8>, s: Scan) -> bool {
    s matches Scan::At(p) && p < b.len()
}

impl WireRecord for HealthResponse {
    open spec fn emit(s: Emit, v: HealthResponse) -> Emit {
        let s = emit_check(s, field_fault(queue_fault(v.queue_entries)));
        let s = emit_be(s, v.nonce as nat, 8);
        let s = emit_check(s, field_fault(source_fault(v.source_id)));
        let s = emit_be(s, v.source_id as nat, 16);
        let s = emit_u8(s, status_tag(v.status));
        let s = emit_be(s, v.queue_entries as nat, 4);
        let s = emit_option_u64(s, v.accepted_through_sequence);
        let s = emit_option_u64(s, v.durable_through_sequence);
        let s = emit_be(s, v.overload_count as nat, 8);
        let s = emit_be(s, v.protocol_error_count as nat, 8);
        let s = emit_be(s, v.database_bytes as nat, 8);
        let s = emit_be(s, v.database_points as nat, 8);
        let s = emit_be(s, v.database_commits as nat, 8);
        let s = emit_be(s, v.recovered_tail_bytes as nat, 8);
        let s = SyncPolicy::emit(s, v.sync_policy);
        emit_bool(s, v.last_ack_durable)
    }

    open spec fn scan(b: Seq<u8>, s: Scan) -> (HealthResponse, Scan) {
        let (nonce, s) = scan_u64(b, s);
        let (source_id, s) = scan_u128(b, s);
        let (status, s) = scan_status(b, s);
        let (queue_entries, s) = scan_u32(b, s);
        let (accepted_through_sequence, s) = scan_option_u64(b, s, "accepted watermark");
        let (durable_through_sequence, s) = scan_option_u64(b, s, "durable watermark");
        let v = HealthResponse {
            nonce,
            source_id,
            status,
            queue_entries,
            accepted_through_sequence,
            durable_through_sequence,
            overload_count: 0,
            protocol_error_count: 0,
            database_bytes: 0,
            database_points: 0,
            database_commits: 0,
            recovered_tail_bytes: 0,
            sync_policy: SyncPolicy::Always,
            last_ack_durable: false,
        };
        let (v, s) = if more(b, s) {
            scan_counters(b, s, v)
        } else {
            (v, s)
        };
        (v, scan_check(s, field_fault(health_fault(v))))
    }

    open spec fn ordered(v: HealthResponse) -> bool {
        true
    }

    #[verifier::spinoff_prover]
    fn put(&self, out: &mut Vec<u8>) -> (outcome: Result<(), ProtocolError>) {
        if self.queue_entries > MAX_QUEUE_ENTRIES {
            return Err(ProtocolError::InvalidField("queue_entries"));
        }
        put_u64(out, self.nonce);
        if self.source_id == 0 {
            return Err(ProtocolError::InvalidField("source_id"));
        }
        put_u128(out, self.source_id);
        put_u8(out, status_byte(self.status));
        put_u32(out, self.queue_entries);
        put_option_u64(out, self.accepted_through_sequence);
        put_option_u64(out, self.durable_through_sequence);
        put_u64(out, self.overload_count);
        put_u64(out, self.protocol_error_count);
        put_u64(out, self.database_bytes);
        put_u64(out, self.database_points);
        put_u64(out, self.database_commits);
        put_u64(out, self.recovered_tail_bytes);
        if let Err(e) = self.sync_policy.put(out) {
            return Err(e);
        }
        put_bool(out, self.last_ack_durable);
        Ok(())
    }

    #[verifier::spinoff_prover]
    fn take<'a>(input: &mut Input<'a>) -> (outcome: Result<Self, ProtocolError>) {
        let nonce: u64 = input.u64()?;
        let source_id: u128 = input.u128()?;
        let status: HealthStatus = status_from(input.u8()?)?;
        let queue_entries: u32 = input.u32()?;
        let accepted_through_sequence: Option<u64> = input.watermark("accepted watermark")?;
        let durable_through_sequence: Option<u64> = input.watermark("durable watermark")?;
        let mut v = HealthResponse {
            nonce,
            source_id,
            status,
            queue_entries,
            accepted_through_sequence,
            durable_through_sequence,
            overload_count: 0,
            protocol_error_count: 0,
            database_bytes: 0,
            database_points: 0,
            database_commits: 0,
            recovered_tail_bytes: 0,
            sync_policy: SyncPolicy::Always,
            last_ack_durable: false,
        };
        if input.remaining() > 0 {
            v = take_counters(input, v)?;
        }
        if let Err(reason) = v.validate() {
            return Err(ProtocolError::InvalidField(reason));
        }
        Ok(v)
    }

    proof fn faults_stay(b: Seq<u8>, v: HealthResponse) {
    }

    #[verifier::spinoff_prover]
    proof fn read_back(p: Seq<u8>, v: HealthResponse, q: Seq<u8>, b: Seq<u8>) {
        let s0 = emit_check(Emit::Bytes(p), field_fault(queue_fault(v.queue_entries)));
        let s1 = emit_check(
            emit_be(s0, v.nonce as nat, 8),
            field_fault(source_fault(v.source_id)),
        );
        let s2 = emit_be(s1, v.source_id as nat, 16);
        let s3 = emit_u8(s2, status_tag(v.status));
        let s4 = emit_be(s3, v.queue_entries as nat, 4);
        let s5 = emit_option_u64(s4, v.accepted_through_sequence);
        let s6 = emit_option_u64(s5, v.durable_through_sequence);
        let s7 = emit_be(s6, v.overload_count as nat, 8);
        let s8 = emit_be(s7, v.protocol_error_count as nat, 8);
        let s9 = emit_be(s8, v.database_bytes as nat, 8);
        let s10 = emit_be(s9, v.database_points as nat, 8);
        let s11 = emit_be(s10, v.database_commits as nat, 8);
        let s12 = emit_be(s11, v.recovered_tail_bytes as nat, 8);
        let s13 = SyncPolicy::emit(s12, v.sync_policy);
        lemma_bool(s13->Bytes_0, v.last_ack_durable, q, b, "last_ack_durable");
        SyncPolicy::read_back(s12->Bytes_0, v.sync_policy, s13->Bytes_0, b);
        lemma_u64(s11->Bytes_0, v.recovered_tail_bytes, s12->Bytes_0, b);
        lemma_u64(s10->Bytes_0, v.database_commits, s11->Bytes_0, b);
        lemma_u64(s9->Bytes_0, v.database_points, s10->Bytes_0, b);
        lemma_u64(s8->Bytes_0, v.database_bytes, s9->Bytes_0, b);
        lemma_u64(s7->Bytes_0, v.protocol_error_count, s8->Bytes_0, b);
        lemma_u64(s6->Bytes_0, v.overload_count, s7->Bytes_0, b);
        lemma_be_len(v.overload_count as nat, 8);
        lemma_option_u64(
            s5->Bytes_0,
            v.durable_through_sequence,
            s6->Bytes_0,
            b,
            "durable watermark",
        );
        lemma_option_u64(
            s4->Bytes_0,
            v.accepted_through_sequence,
            s5->Bytes_0,
            b,
            "accepted watermark",
        );
        lemma_u32(s3->Bytes_0, v.queue_entries, s4->Bytes_0, b);
        lemma_u8(s2->Bytes_0, status_tag(v.status), s3->Bytes_0, b);
        lemma_u128(s1->Bytes_0, v.source_id, s2->Bytes_0, b);
        lemma_u64(p, v.nonce, s1->Bytes_0, b);
    }
}

// Commit batches.

/// The fault of the first series definition that has one.
pub open spec fn series_list_fault(v: Seq<SeriesModel>) -> Option<&'static str>
    decreases v.len(),
{
    if v.len() == 0 {
        None
    } else if series_list_fault(v.drop_last()) is Some {
        series_list_fault(v.drop_last())
    } else {
        series_fault(v.last())
    }
}

/// The fault of the first plan that has one.
pub open spec fn plan_list_fault(v: Seq<PlanModel>) -> Option<&'static str>
    decreases v.len(),
{
    if v.len() == 0 {
        None
    } else if plan_list_fault(v.drop_last()) is Some {
        plan_list_fault(v.drop_last())
    } else {
        plan_fault(v.last())
    }
}

/// Whether a point names a series, does not end before it starts, and is finite.
pub open spec fn point_valid(p: Point) -> bool {
    p.series_id != 0 && p.valid_time_end >= p.valid_time && finite(p.value)
}

/// The number of metadata records of a batch.
pub open spec fn metadata_records(v: BatchModel) -> nat {
    v.entities.len() + v.relations.len() + v.series.len() + v.runs.len() + v.plans.len()
}

/// The first rule that a batch breaks, if it breaks one.
pub open spec fn batch_fault(v: BatchModel) -> Option<&'static str> {
    if v.source_id == 0 {
        Some("source_id")
    } else if metadata_records(v) > MAX_METADATA_RECORDS {
        Some("too many metadata records")
    } else if v.points.len() > MAX_BATCH_POINTS {
        Some("too many points")
    } else if metadata_records(v) == 0 && v.points.len() == 0 {
        Some("empty transaction")
    } else if series_list_fault(v.series) is Some {
        series_list_fault(v.series)
    } else if plan_list_fault(v.plans) is Some {
        plan_list_fault(v.plans)
    } else if exists|i: int| 0 <= i < v.points.len() && !point_valid(#[trigger] v.points[i]) {
        Some("invalid point")
    } else {
        None
    }
}

proof fn lemma_first_series_fault(v: Seq<SeriesModel>, n: int)
    requires
        0 <= n <= v.len(),
        series_list_fault(v.take(n)) is Some,
    ensures
        series_list_fault(v) == series_list_fault(v.take(n)),
    decreases v.len() - n,
{
    if n < v.len() {
        assert(v.take(n + 1).drop_last() =~= v.take(n));
        lemma_first_series_fault(v, n + 1);
    } else {
        assert(v.take(n) =~= v);
    }
}

proof fn lemma_first_plan_fault(v: Seq<PlanModel>, n: int)
    requires
        0 <= n <= v.len(),
        plan_list_fault(v.take(n)) is Some,
    ensures
        plan_list_fault(v) == plan_list_fault(v.take(n)),
    decreases v.len() - n,
{
    if n < v.len() {
        assert(v.take(n + 1).drop_last() =~= v.take(n));
        lemma_first_plan_fault(v, n + 1);
    } else {
        assert(v.take(n) =~= v);
    }
}

fn validate_series_list(series: &Vec<SeriesDefinition>) -> (outcome: Result<(), &'static str>)
    ensures
        outcome == checked(series_list_fault(series.deep_view())),
{
    let ghost model = series.deep_view();
    let mut i: usize = 0;
    while i < series.len()
        invariant
            i <= series@.len(),
            model == series.deep_view(),
            series_list_fault(model.take(i as int)) is None,
        decreases series@.len() - i,
    {
        let outcome = series[i].validate();
        proof {
            assert(model.take(i + 1).drop_last() =~= model.take(i as int));
            assert(model.take(i + 1).last() == series@[i as int].deep_view());
        }
        if outcome.is_err() {
            proof {
                lemma_first_series_fault(model, i + 1);
            }
            return outcome;
        }
        i = i + 1;
    }
    assert(model.take(model.len() as int) =~= model);
    Ok(())
}

fn validate_plan_list(plans: &Vec<Plan>) -> (outcome: Result<(), &'static str>)
    ensures
        outcome == checked(plan_list_fault(plans.deep_view())),
{
    let ghost model = plans.deep_view();
    let mut i: usize = 0;
    while i < plans.len()
        invariant
            i <= plans@.len(),
            model == plans.deep_view(),
            plan_list_fault(model.take(i as int)) is None,
        decreases plans@.len() - i,
    {
        let outcome = plans[i].validate();
        proof {
            assert(model.take(i + 1).drop_last() =~= model.take(i as int));
            assert(model.take(i + 1).last() == plans@[i as int].deep_view());
        }
        if outcome.is_err() {
            proof {
                lemma_first_plan_fault(model, i + 1);
            }
            return outcome;
        }
        i = i + 1;
    }
    assert(model.take(model.len() as int) =~= model);
    Ok(())
}

fn all_points_valid(points: &Vec<Point>) -> (yes: bool)
    ensures
        yes == !(exists|i: int|
            0 <= i < points.deep_view().len() && !point_valid(#[trigger] points.deep_view()[i])),
{
    let mut i: usize = 0;
    while i < points.len()
        invariant
            i <= points@.len(),
            forall|j: int| 0 <= j < i ==> point_valid(#[trigger] points@[j]),
        decreases points@.len() - i,
    {
        let p = points[i];
        if p.series_id == 0 || p.valid_time_end < p.valid_time || !p.value.is_finite() {
            assert(points.deep_view()[i as int] == p);
            return false;
        }
        i = i + 1;
    }
    assert forall|j: int| 0 <= j < points.deep_view().len() implies point_valid(
        #[trigger] points.deep_view()[j],
    ) by {
        assert(point_valid(points@[j]));
    }
    true
}

impl CommitBatchRequest {
    /// Checks the batch against the limits of the protocol and the model.
    pub fn validate(&self) -> (outcome: Result<(), &'static str>)
        ensures
            outcome == checked(batch_fault(self.deep_view())),
    {
        if self.source_id == 0 {
            return Err("source_id");
        }
        let metadata: u128 = self.entities.len() as u128 + self.relations.len() as u128
            + self.series.len() as u128 + self.runs.len() as u128 + self.plans.len() as u128;
        if metadata > MAX_METADATA_RECORDS as u128 {
            return Err("too many metadata records");
        }
        if self.points.len() > MAX_BATCH_POINTS {
            return Err("too many points");
        }
        if metadata == 0 && self.points.len() == 0 {
            return Err("empty transaction");
        }
        if let Err(reason) = validate_series_list(&self.series) {
            return Err(reason);
        }
        if let Err(reason) = validate_plan_list(&self.plans) {
            return Err(reason);
        }
        if !all_points_valid(&self.points) {
            return Err("invalid point");
        }
        Ok(())
    }
}

/// A count and that many records.
pub open spec fn emit_collection<T: WireRecord>(s: Emit, v: Seq<T::V>) -> Emit {
    emit_all::<T>(emit_be(s, v.len(), 4), v)
}

/// A count of at most `max` metadata records and that many records.
pub open spec fn scan_collection<T: WireRecord>(b: Seq<u8>, s: Scan, max: nat) -> (
    Seq<T::V>,
    Scan,
) {
    let (n, s) = scan_count(b, s, max, "metadata record count");
    scan_all::<T>(b, s, n)
}

/// The points of a batch: a count, then nothing but that many points.
pub open spec fn scan_points(b: Seq<u8>, s: Scan) -> (Seq<Point>, Scan) {
    let (n, s) = scan_count(b, s, MAX_BATCH_POINTS as nat, "too many points");
    let s = scan_check(
        s,
        unless(b.len() - s->At_0 == n * POINT_BYTES, "point payload length"),
    );
    scan_all::<Point>(b, s, n)
}

proof fn lemma_collection_faults_stay<T: WireRecord>(b: Seq<u8>, v: Seq<T::V>)
    ensures
        forall|s: Emit| s is Fault ==> #[trigger] emit_collection::<T>(s, v) == s,
        forall|s: Scan, max: nat|
            s is Fault ==> (#[trigger] scan_collection::<T>(b, s, max)).1 == s,
{
    lemma_all_faults_stay::<T>(b, v);
}

proof fn lemma_collection_read_back<T: WireRecord>(
    p: Seq<u8>,
    v: Seq<T::V>,
    q: Seq<u8>,
    b: Seq<u8>,
    max: nat,
    field: &'static str,
)
    requires
        all_ordered::<T>(v),
        emit_collection::<T>(Emit::Bytes(p), v) == Emit::Bytes(q),
        v.len() <= max <= u32::MAX,
        starts(q, b),
        b.len() <= usize::MAX,
    ensures
        starts(p, b),
        ({
            let (n, s) = scan_count(b, Scan::At(p.len() as int), max, field);
            &&& n == v.len()
            &&& s == Scan::At(p.len() + 4int)
            &&& scan_all::<T>(b, s, n) == (v, Scan::At(q.len() as int))
        }),
{
    let m = emit_be(Emit::Bytes(p), v.len(), 4)->Bytes_0;
    lemma_all_read_back::<T>(m, v, q, b);
    lemma_count(p, v.len(), m, b, max, field);
    lemma_be_len(v.len(), 4);
}

fn put_collection<T: WireRecord>(out: &mut Vec<u8>, records: &Vec<T>) -> (outcome: Result<
    (),
    ProtocolError,
>)
    requires
        records@.len() <= u32::MAX,
    ensures
        emitted(
            outcome,
            emit_collection::<T>(Emit::Bytes(old(out)@), records.deep_view()),
            final(out)@,
        ),
{
    put_u32(out, records.len() as u32);
    put_all(out, records)
}

fn take_collection<'a, T: WireRecord>(input: &mut Input<'a>, max: usize) -> (outcome: Result<
    Vec<T>,
    ProtocolError,
>)
    requires
        old(input).ok(),
    ensures
        final(input).ok(),
        final(input).data() == old(input).data(),
        scanned(
            outcome,
            scan_collection::<T>(old(input).data(), old(input).scan(), max as nat),
            final(input).scan(),
        ),
        outcome matches Ok(v) ==> v@.len() <= max,
{
    proof {
        lemma_all_faults_stay::<T>(input.data(), Seq::empty());
        lemma_scan_all_len::<T>(
            input.data(),
            scan_count(input.data(), input.scan(), max as nat, "metadata record count").1,
            scan_count(input.data(), input.scan(), max as nat, "metadata record count").0,
        );
    }
    let n: usize = input.count(max, "metadata record count")?;
    take_all(input, n)
}

proof fn lemma_scan_all_len<T: WireRecord>(b: Seq<u8>, s: Scan, n: nat)
    ensures
        scan_all::<T>(b, s, n).0.len() == n,
    decreases n,
{
    if n > 0 {
        lemma_scan_all_len::<T>(b, s, (n - 1) as nat);
    }
}

fn take_points<'a>(input: &mut Input<'a>) -> (outcome: Result<Vec<Point>, ProtocolError>)
    requires
        old(input).ok(),
    ensures
        final(input).ok(),
        final(input).data() == old(input).data(),
        scanned(
            outcome,
            scan_points(old(input).data(), old(input).scan()),
            final(input).scan(),
        ),
{
    proof {
        lemma_all_faults_stay::<Point>(input.data(), Seq::empty());
    }
    let n: usize = input.count(MAX_BATCH_POINTS, "too many points")?;
    if input.remaining() != n * POINT_BYTES {
        return Err(ProtocolError::InvalidField("point payload length"));
    }
    take_all(input, n)
}

/// Each point takes 72 bytes.
proof fn lemma_points_len(p: Seq<u8>, v: Seq<Point>, q: Seq<u8>)
    requires
        emit_all::<Point>(Emit::Bytes(p), v) == Emit::Bytes(q),
    ensures
        q.len() == p.len() + v.len() * POINT_BYTES,
    decreases v.len(),
{
    if v.len() > 0 {
        let s = emit_all::<Point>(Emit::Bytes(p), v.drop_last());
        let x = v.last();
        assert(s is Bytes);
        lemma_points_len(p, v.drop_last(), s->Bytes_0);
        lemma_be_len(x.series_id as nat, 8);
        lemma_be_len(crate::bytes::bits_of_i64(x.valid_time), 8);
        lemma_be_len(crate::bytes::bits_of_i64(x.valid_time_end), 8);
        lemma_be_len(crate::bytes::bits_of_i64(x.knowledge_time), 8);
        lemma_be_len(crate::bytes::bits_of_i64(x.change_time), 8);
        lemma_be_len(x.run_id as nat, 16);
        lemma_be_len(x.value.0 as nat, 8);
        lemma_be_len(x.quality as nat, 4);
        lemma_be_len(x.flags as nat, 4);
    }
}

/// The payload of a commit batch.
pub open spec fn emit_batch(s: Emit, v: BatchModel) -> Emit {
    let s = emit_check(s, field_fault(batch_fault(v)));
    let s = emit_be(s, v.source_id as nat, 16);
    let s = emit_be(s, v.sequence as nat, 8);
    let s = emit_be(s, v.commit_id as nat, 16);
    let s = emit_collection::<Entity>(s, v.entities);
    let s = emit_collection::<Relation>(s, v.relations);
    let s = emit_collection::<SeriesDefinition>(s, v.series);
    let s = emit_collection::<Run>(s, v.runs);
    let s = emit_collection::<Plan>(s, v.plans);
    emit_collection::<Point>(s, v.points)
}

pub open spec fn scan_batch(b: Seq<u8>, s: Scan) -> (BatchModel, Scan) {
    let (source_id, s) = scan_u128(b, s);
    let (sequence, s) = scan_u64(b, s);
    let (commit_id, s) = scan_u128(b, s);
    let room = MAX_METADATA_RECORDS as nat;
    let (entities, s) = scan_collection::<Entity>(b, s, room);
    let room = (room - entities.len()) as nat;
    let (relations, s) = scan_collection::<Relation>(b, s, room);
    let room = (room - relations.len()) as nat;
    let (series, s) = scan_collection::<SeriesDefinition>(b, s, room);
    let room = (room - series.len()) as nat;
    let (runs, s) = scan_collection::<Run>(b, s, room);
    let room = (room - runs.len()) as nat;
    let (plans, s) = scan_collection::<Plan>(b, s, room);
    let (points, s) = scan_points(b, s);
    let v = BatchModel {
        source_id,
        sequence,
        commit_id,
        entities,
        relations,
        series,
        runs,
        plans,
        points,
    };
    (v, scan_check(s, field_fault(batch_fault(v))))
}

/// Whether every map inside a batch is in ascending key order.
pub open spec fn batch_ordered(v: BatchModel) -> bool {
    &&& all_ordered::<Entity>(v.entities)
    &&& all_ordered::<Relation>(v.relations)
    &&& all_ordered::<SeriesDefinition>(v.series)
    &&& all_ordered::<Run>(v.runs)
    &&& all_ordered::<Plan>(v.plans)
}

#[verifier::spinoff_prover]
fn put_batch(out: &mut Vec<u8>, batch: &CommitBatchRequest) -> (outcome: Result<(), ProtocolError>)
    ensures
        emitted(outcome, emit_batch(Emit::Bytes(old(out)@), batch.deep_view()), final(out)@),
{
    proof {
        let v = batch.deep_view();
        lemma_collection_faults_stay::<Entity>(Seq::empty(), v.entities);
        lemma_collection_faults_stay::<Relation>(Seq::empty(), v.relations);
        lemma_collection_faults_stay::<SeriesDefinition>(Seq::empty(), v.series);
        lemma_collection_faults_stay::<Run>(Seq::empty(), v.runs);
        lemma_collection_faults_stay::<Plan>(Seq::empty(), v.plans);
        lemma_collection_faults_stay::<Point>(Seq::empty(), v.points);
    }
    if let Err(reason) = batch.validate() {
        return Err(ProtocolError::InvalidField(reason));
    }
    put_u128(out, batch.source_id);
    put_u64(out, batch.sequence);
    put_u128(out, batch.commit_id);
    if let Err(e) = put_collection(out, &batch.entities) {
        return Err(e);
    }
    if let Err(e) = put_collection(out, &batch.relations) {
        return Err(e);
    }
    if let Err(e) = put_collection(out, &batch.series) {
        return Err(e);
    }
    if let Err(e) = put_collection(out, &batch.runs) {
        return Err(e);
    }
    if let Err(e) = put_collection(out, &batch.plans) {
        return Err(e);
    }
    put_collection(out, &batch.points)
}

#[verifier::spinoff_prover]
fn take_batch<'a>(input: &mut Input<'a>) -> (outcome: Result<CommitBatchRequest, ProtocolError>)
    requires
        old(input).ok(),
    ensures
        final(input).ok(),
        final(input).data() == old(input).data(),
        scanned(outcome, scan_batch(old(input).data(), old(input).scan()), final(input).scan()),
{
    proof {
        let b = input.data();
        lemma_collection_faults_stay::<Entity>(b, Seq::empty());
        lemma_collection_faults_stay::<Relation>(b, Seq::empty());
        lemma_collection_faults_stay::<SeriesDefinition>(b, Seq::empty());
        lemma_collection_faults_stay::<Run>(b, Seq::empty());
        lemma_collection_faults_stay::<Plan>(b, Seq::empty());
        lemma_all_faults_stay::<Point>(b, Seq::empty());
    }
    let source_id: u128 = input.u128()?;
    let sequence: u64 = input.u64()?;
    let commit_id: u128 = input.u128()?;
    let mut room: usize = MAX_METADATA_RECORDS;
    let entities: Vec<Entity> = take_collection(input, room)?;
    room = room - entities.len();
    let relations: Vec<Relation> = take_collection(input, room)?;
    room = room - relations.len();
    let series: Vec<SeriesDefinition> = take_collection(input, room)?;
    room = room - series.len();
    let runs: Vec<Run> = take_collection(input, room)?;
    room = room - runs.len();
    let plans: Vec<Plan> = take_collection(input, room)?;
    let points: Vec<Point> = take_points(input)?;
    let batch = CommitBatchRequest {
        source_id,
        sequence,
        commit_id,
        entities,
        relations,
        series,
        runs,
        plans,
        points,
    };
    if let Err(reason) = batch.validate() {
        return Err(ProtocolError::InvalidField(reason));
    }
    Ok(batch)
}

proof fn lemma_batch_faults_stay(b: Seq<u8>, v: BatchModel)
    ensures
        forall|s: Emit| s is Fault ==> #[trigger] emit_batch(s, v) == s,
        forall|s: Scan| s is Fault ==> (#[trigger] scan_batch(b, s)).1 == s,
        forall|s: Emit| s is Fault ==> #[trigger] emit_collection::<Entity>(s, v.entities) == s,
        forall|s: Emit| s is Fault ==> #[trigger] emit_collection::<Relation>(s, v.relations) == s,
        forall|s: Emit|
            s is Fault ==> #[trigger] emit_collection::<SeriesDefinition>(s, v.series) == s,
        forall|s: Emit| s is Fault ==> #[trigger] emit_collection::<Run>(s, v.runs) == s,
        forall|s: Emit| s is Fault ==> #[trigger] emit_collection::<Plan>(s, v.plans) == s,
        forall|s: Emit| s is Fault ==> #[trigger] emit_collection::<Point>(s, v.points) == s,
{
    lemma_collection_faults_stay::<Entity>(b, v.entities);
    lemma_collection_faults_stay::<Relation>(b, v.relations);
    lemma_collection_faults_stay::<SeriesDefinition>(b, v.series);
    lemma_collection_faults_stay::<Run>(b, v.runs);
    lemma_collection_faults_stay::<Plan>(b, v.plans);
    lemma_collection_faults_stay::<Point>(b, v.points);
    lemma_all_faults_stay::<Point>(b, v.points);
}

#[verifier::spinoff_prover]
/// A batch that ends its input is read back as it was written.
proof fn lemma_batch_read_back(p: Seq<u8>, v: BatchModel, b: Seq<u8>)
    requires
        batch_ordered(v),
        emit_batch(Emit::Bytes(p), v) == Emit::Bytes(b),
        b.len() <= usize::MAX,
    ensures
        starts(p, b),
        scan_batch(b, Scan::At(p.len() as int)) == (v, Scan::At(b.len() as int)),
{
    lemma_batch_faults_stay(b, v);
    let q = b;
    assert(b.subrange(0, b.len() as int) =~= b);
    let s0 = emit_check(Emit::Bytes(p), field_fault(batch_fault(v)));
    let s1 = emit_be(s0, v.source_id as nat, 16);
    let s2 = emit_be(s1, v.sequence as nat, 8);
    let s3 = emit_be(s2, v.commit_id as nat, 16);
    let s4 = emit_collection::<Entity>(s3, v.entities);
    let s5 = emit_collection::<Relation>(s4, v.relations);
    let s6 = emit_collection::<SeriesDefinition>(s5, v.series);
    let s7 = emit_collection::<Run>(s6, v.runs);
    let s8 = emit_collection::<Plan>(s7, v.plans);
    let s9 = emit_collection::<Point>(s8, v.points);
    assert(s8 is Bytes);
    let room = MAX_METADATA_RECORDS as nat;
    let room1 = (room - v.entities.len()) as nat;
    let room2 = (room1 - v.relations.len()) as nat;
    let room3 = (room2 - v.series.len()) as nat;
    let room4 = (room3 - v.runs.len()) as nat;
    let field = "metadata record count";
    let m = emit_be(Emit::Bytes(s8->Bytes_0), v.points.len(), 4)->Bytes_0;
    lemma_points_len(m, v.points, b);
    lemma_be_len(v.points.len(), 4);
    lemma_collection_read_back::<Point>(
        s8->Bytes_0,
        v.points,
        q,
        b,
        MAX_BATCH_POINTS as nat,
        "too many points",
    );
    lemma_collection_read_back::<Plan>(s7->Bytes_0, v.plans, s8->Bytes_0, b, room4, field);
    lemma_collection_read_back::<Run>(s6->Bytes_0, v.runs, s7->Bytes_0, b, room3, field);
    lemma_collection_read_back::<SeriesDefinition>(
        s5->Bytes_0,
        v.series,
        s6->Bytes_0,
        b,
        room2,
        field,
    );
    lemma_collection_read_back::<Relation>(
        s4->Bytes_0,
        v.relations,
        s5->Bytes_0,
        b,
        room1,
        field,
    );
    lemma_collection_read_back::<Entity>(s3->Bytes_0, v.entities, s4->Bytes_0, b, room, field);
    lemma_u128(s2->Bytes_0, v.commit_id, s3->Bytes_0, b);
    lemma_u64(s1->Bytes_0, v.sequence, s2->Bytes_0, b);
    lemma_u128(p, v.source_id, s1->Bytes_0, b);
}

// Messages.

/// The payload of a message.
pub open spec fn emit_payload(s: Emit, m: MessageModel) -> Emit {
    match m {
        MessageModel::Hello(v) => HelloRequest::emit(s, v),
        MessageModel::CommitBatch(v) => emit_batch(s, v),
        MessageModel::Flush(v) => FlushRequest::emit(s, v),
        MessageModel::Health(v) => HealthRequest::emit(s, v),
        MessageModel::HelloReply(v) => HelloResponse::emit(s, v),
        MessageModel::Ack(v) => Ack::emit(s, v),
        MessageModel::HealthReply(v) => HealthResponse::emit(s, v),
        MessageModel::Error(v) => ErrorResponse::emit(s, v),
    }
}

/// The message of a known kind whose payload starts at `s`.
pub open spec fn scan_payload(kind: u8, b: Seq<u8>, s: Scan) -> (MessageModel, Scan) {
    if kind == HELLO_REQUEST {
        let (v, s) = HelloRequest::scan(b, s);
        (MessageModel::Hello(v), s)
    } else if kind == COMMIT_BATCH_REQUEST {
        let (v, s) = scan_batch(b, s);
        (MessageModel::CommitBatch(v), s)
    } else if kind == FLUSH_REQUEST {
        let (v, s) = FlushRequest::scan(b, s);
        (MessageModel::Flush(v), s)
    } else if kind == HEALTH_REQUEST {
        let (v, s) = HealthRequest::scan(b, s);
        (MessageModel::Health(v), s)
    } else if kind == HELLO_RESPONSE {
        let (v, s) = HelloResponse::scan(b, s);
        (MessageModel::HelloReply(v), s)
    } else if kind == ACK_RESPONSE {
        let (v, s) = Ack::scan(b, s);
        (MessageModel::Ack(v), s)
    } else if kind == HEALTH_RESPONSE {
        let (v, s) = HealthResponse::scan(b, s);
        (MessageModel::HealthReply(v), s)
    } else {
        let (v, s) = ErrorResponse::scan(b, s);
        (MessageModel::Error(v), s)
    }
}

/// The message that a whole payload holds.
pub open spec fn payload_message(kind: u8, payload: Seq<u8>) -> Result<
    MessageModel,
    ProtocolError,
> {
    let (m, s) = scan_payload(kind, payload, Scan::At(0));
    match s {
        Scan::Fault(e) => Err(e),
        Scan::At(p) => if p == payload.len() {
            Ok(m)
        } else {
            Err(ProtocolError::TrailingBytes { count: (payload.len() - p) as usize })
        },
    }
}

/// Appends the payload of a message and gives its kind.
pub fn encode_payload(message: &WireMessage, out: &mut Vec<u8>) -> (outcome: Result<
    u8,
    ProtocolError,
>)
    ensures
        match outcome {
            Ok(kind) => kind == kind_of(message.deep_view()) && emit_payload(
                Emit::Bytes(old(out)@),
                message.deep_view(),
            ) == Emit::Bytes(final(out)@),
            Err(e) => emit_payload(Emit::Bytes(old(out)@), message.deep_view()) == Emit::Fault(
                e,
                final(out)@,
            ),
        },
{
    let (kind, outcome) = match message {
        WireMessage::Request(Request::Hello(v)) => (HELLO_REQUEST, v.put(out)),
        WireMessage::Request(Request::CommitBatch(v)) => (COMMIT_BATCH_REQUEST, put_batch(out, v)),
        WireMessage::Request(Request::Flush(v)) => (FLUSH_REQUEST, v.put(out)),
        WireMessage::Request(Request::Health(v)) => (HEALTH_REQUEST, v.put(out)),
        WireMessage::Response(Response::Hello(v)) => (HELLO_RESPONSE, v.put(out)),
        WireMessage::Response(Response::Ack(v)) => (ACK_RESPONSE, v.put(out)),
        WireMessage::Response(Response::Health(v)) => (HEALTH_RESPONSE, v.put(out)),
        WireMessage::Response(Response::Error(v)) => (ERROR_RESPONSE, v.put(out)),
    };
    match outcome {
        Ok(_) => Ok(kind),
        Err(e) => Err(e),
    }
}

/// The outcome of reading a message.
pub open spec fn message_read(
    outcome: Result<WireMessage, ProtocolError>,
    expected: Result<MessageModel, ProtocolError>,
) -> bool {
    match (outcome, expected) {
        (Ok(m), Ok(model)) => m.deep_view() == model,
        (Err(e), Err(f)) => e == f,
        _ => false,
    }
}

fn take_message<'a>(kind: u8, input: &mut Input<'a>) -> (outcome: Result<
    WireMessage,
    ProtocolError,
>)
    requires
        old(input).ok(),
    ensures
        final(input).ok(),
        final(input).data() == old(input).data(),
        scanned(
            outcome,
            scan_payload(kind, old(input).data(), old(input).scan()),
            final(input).scan(),
        ),
{
    match kind {
        1 => {
            let v = HelloRequest::take(input)?;
            Ok(WireMessage::Request(Request::Hello(v)))
        },
        2 => {
            let v = take_batch(input)?;
            Ok(WireMessage::Request(Request::CommitBatch(v)))
        },
        3 => {
            let v = FlushRequest::take(input)?;
            Ok(WireMessage::Request(Request::Flush(v)))
        },
        4 => {
            let v = HealthRequest::take(input)?;
            Ok(WireMessage::Request(Request::Health(v)))
        },
        128 => {
            let v = HelloResponse::take(input)?;
            Ok(WireMessage::Response(Response::Hello(v)))
        },
        129 => {
            let v = Ack::take(input)?;
            Ok(WireMessage::Response(Response::Ack(v)))
        },
        130 => {
            let v = HealthResponse::take(input)?;
            Ok(WireMessage::Response(Response::Health(v)))
        },
        _ => {
            let v = ErrorResponse::take(input)?;
            Ok(WireMessage::Response(Response::Error(v)))
        },
    }
}

/// Reads the payload of a message of a known kind.
pub fn decode_payload(kind: u8, payload: &[u8]) -> (outcome: Result<WireMessage, ProtocolError>)
    requires
        known_kind(kind),
    ensures
        message_read(outcome, payload_message(kind, payload@)),
{
    let mut input = Input::new(payload);
    let message = take_message(kind, &mut input)?;
    input.finish()?;
    Ok(message)
}

// Frames.

/// The first four bytes of every frame.
pub open spec fn magic() -> Seq<u8> {
    seq![0x46u8, 0x54u8, 0x57u8, 0x53u8]
}

/// The header and the payload of a frame.
pub open spec fn frame_body(kind: u8, payload: Seq<u8>) -> Seq<u8> {
    magic() + be(PROTOCOL_VERSION as nat, 2) + seq![kind, 0u8] + be(payload.len(), 4) + payload
}

/// A frame: header, payload and the checksum over both.
pub open spec fn frame_bytes(kind: u8, payload: Seq<u8>) -> Seq<u8> {
    frame_body(kind, payload) + be(crc32_of(frame_body(kind, payload)) as nat, 4)
}

/// The error for a payload that no frame can hold.
pub open spec fn too_large(payload: nat) -> ProtocolError {
    ProtocolError::FrameTooLarge {
        declared: if payload + 16 > usize::MAX {
            usize::MAX
        } else {
            (payload + 16) as usize
        },
        maximum: MAX_FRAME_BYTES,
    }
}

/// The frame of a message, or why it has none.
pub open spec fn encoded(m: MessageModel) -> Result<Seq<u8>, ProtocolError> {
    match emit_payload(Emit::Bytes(Seq::empty()), m) {
        Emit::Fault(e, _) => Err(e),
        Emit::Bytes(payload) => if payload.len() > MAX_PAYLOAD_BYTES {
            Err(too_large(payload.len()))
        } else {
            Ok(frame_bytes(kind_of(m), payload))
        },
    }
}

/// What a header declares: the kind and the length of the whole frame.
pub open spec fn header(frame: Seq<u8>) -> Result<(u8, nat), ProtocolError> {
    let version = from_be(frame.subrange(4, 6)) as u16;
    let kind = frame[6];
    let payload = from_be(frame.subrange(8, 12));
    if frame.len() < HEADER_BYTES {
        Err(ProtocolError::Truncated { expected: HEADER_BYTES, actual: frame.len() as usize })
    } else if frame.subrange(0, 4) != magic() {
        Err(ProtocolError::InvalidMagic)
    } else if version != PROTOCOL_VERSION {
        Err(ProtocolError::UnsupportedVersion(version))
    } else if !known_kind(kind) {
        Err(ProtocolError::UnknownMessageType(kind))
    } else if frame[7] != 0 {
        Err(ProtocolError::ReservedBitsSet(frame[7]))
    } else if payload + 16 > MAX_FRAME_BYTES {
        Err(too_large(payload))
    } else {
        Ok((kind, payload + 16))
    }
}

/// The message of a frame, or the first thing that is wrong with the frame.
pub open spec fn decoded(frame: Seq<u8>) -> Result<MessageModel, ProtocolError> {
    match header(frame) {
        Err(e) => Err(e),
        Ok((kind, total)) => {
            let actual = from_be(frame.subrange(total - 4, total as int)) as u32;
            let expected = crc32_of(frame.subrange(0, total - 4));
            if frame.len() < total {
                Err(
                    ProtocolError::Truncated {
                        expected: total as usize,
                        actual: frame.len() as usize,
                    },
                )
            } else if frame.len() > total {
                Err(ProtocolError::TrailingBytes { count: (frame.len() - total) as usize })
            } else if actual != expected {
                Err(ProtocolError::ChecksumMismatch { expected, actual })
            } else {
                payload_message(kind, frame.subrange(12, total - 4))
            }
        },
    }
}

fn frame_too_large(payload: usize) -> (error: ProtocolError)
    ensures
        error == too_large(payload as nat),
{
    ProtocolError::FrameTooLarge {
        declared: payload.saturating_add(HEADER_BYTES + CHECKSUM_BYTES),
        maximum: MAX_FRAME_BYTES,
    }
}

/// The frame of a message.
pub fn encode(message: &WireMessage) -> (outcome: Result<Vec<u8>, ProtocolError>)
    ensures
        match outcome {
            Ok(frame) => encoded(message.deep_view()) == Ok::<Seq<u8>, ProtocolError>(frame@),
            Err(e) => encoded(message.deep_view()) == Err::<Seq<u8>, ProtocolError>(e),
        },
{
    let mut payload: Vec<u8> = Vec::new();
    let kind: u8 = encode_payload(message, &mut payload)?;
    if payload.len() > MAX_PAYLOAD_BYTES {
        return Err(frame_too_large(payload.len()));
    }
    let mut frame: Vec<u8> = Vec::new();
    put_bytes(&mut frame, FRAME_MAGIC.as_slice());
    assert(frame@ =~= magic());
    put_be(&mut frame, PROTOCOL_VERSION as u128, 2);
    frame.push(kind);
    frame.push(0);
    assert(frame@ =~= magic() + be(PROTOCOL_VERSION as nat, 2) + seq![kind, 0u8]);
    put_be(&mut frame, payload.len() as u128, 4);
    put_bytes(&mut frame, payload.as_slice());
    let sum: u32 = crc32(frame.as_slice());
    put_be(&mut frame, sum as u128, 4);
    Ok(frame)
}

/// Checks magic, version, kind, reserved byte and body limit, before anything
/// behind the header is looked at.
pub fn parse_header(frame: &[u8]) -> (outcome: Result<(u8, usize), ProtocolError>)
    ensures
        match outcome {
            Ok((kind, total)) => header(frame@) == Ok::<(u8, nat), ProtocolError>(
                (kind, total as nat),
            ) && known_kind(kind) && 16 <= total <= MAX_FRAME_BYTES,
            Err(e) => header(frame@) == Err::<(u8, nat), ProtocolError>(e),
        },
{
    if frame.len() < HEADER_BYTES {
        return Err(ProtocolError::Truncated { expected: HEADER_BYTES, actual: frame.len() });
    }
    assert(FRAME_MAGIC@ =~= magic());
    if !bytes_equal(&frame[0..4], FRAME_MAGIC.as_slice()) {
        return Err(ProtocolError::InvalidMagic);
    }
    proof {
        lemma_pow256_values();
    }
    let version: u16 = read_be(frame, 4, 2) as u16;
    if version != PROTOCOL_VERSION {
        return Err(ProtocolError::UnsupportedVersion(version));
    }
    let kind: u8 = frame[6];
    if !((1 <= kind && kind <= 4) || (128 <= kind && kind <= 131)) {
        return Err(ProtocolError::UnknownMessageType(kind));
    }
    if frame[7] != 0 {
        return Err(ProtocolError::ReservedBitsSet(frame[7]));
    }
    let payload: usize = read_be(frame, 8, 4) as u32 as usize;
    if payload > MAX_PAYLOAD_BYTES {
        return Err(frame_too_large(payload));
    }
    Ok((kind, payload + HEADER_BYTES + CHECKSUM_BYTES))
}

/// How many more bytes of a frame are to be read. First the header is read; what it
/// declares is checked before anything behind it is. Nothing is wanted of a frame
/// that is complete or whose header is refused.
pub open spec fn wanted(received: Seq<u8>) -> nat {
    if received.len() < HEADER_BYTES {
        (HEADER_BYTES - received.len()) as nat
    } else {
        match header(received) {
            Ok((_, total)) => if received.len() < total {
                (total - received.len()) as nat
            } else {
                0
            },
            Err(_) => 0,
        }
    }
}

/// How many more bytes of a frame are to be read.
pub fn bytes_wanted(received: &[u8]) -> (more: usize)
    ensures
        more == wanted(received@),
{
    if received.len() < HEADER_BYTES {
        return HEADER_BYTES - received.len();
    }
    match parse_header(received) {
        Ok((_, total)) => if received.len() < total {
            total - received.len()
        } else {
            0
        },
        Err(_) => 0,
    }
}

/// The message of a frame.
pub fn decode(frame: &[u8]) -> (outcome: Result<WireMessage, ProtocolError>)
    ensures
        message_read(outcome, decoded(frame@)),
{
    let (kind, total) = parse_header(frame)?;
    if frame.len() < total {
        return Err(ProtocolError::Truncated { expected: total, actual: frame.len() });
    }
    if frame.len() > total {
        return Err(ProtocolError::TrailingBytes { count: frame.len() - total });
    }
    proof {
        lemma_pow256_values();
    }
    let actual: u32 = read_be(frame, total - 4, 4) as u32;
    let expected: u32 = crc32(&frame[0..total - 4]);
    if actual != expected {
        return Err(ProtocolError::ChecksumMismatch { expected, actual });
    }
    decode_payload(kind, &frame[12..total - 4])
}

// Laws.

/// Whether every map inside a message is in ascending key order and a session
/// identifier has its sixteen bytes, as in every message that can be built.
pub open spec fn message_ordered(m: MessageModel) -> bool {
    match m {
        MessageModel::CommitBatch(v) => batch_ordered(v),
        MessageModel::HelloReply(v) => v.session_id.len() == 16,
        _ => true,
    }
}

/// A payload is read back as the message it was written for.
pub proof fn payload_round_trip(m: MessageModel, payload: Seq<u8>)
    requires
        message_ordered(m),
        emit_payload(Emit::Bytes(Seq::empty()), m) == Emit::Bytes(payload),
        payload.len() <= usize::MAX,
    ensures
        payload_message(kind_of(m), payload) == Ok::<MessageModel, ProtocolError>(m),
{
    let p = Seq::<u8>::empty();
    assert(payload.subrange(0, payload.len() as int) =~= payload);
    match m {
        MessageModel::Hello(v) => {
            HelloRequest::read_back(p, v, payload, payload);
        },
        MessageModel::CommitBatch(v) => {
            lemma_batch_read_back(p, v, payload);
        },
        MessageModel::Flush(v) => {
            FlushRequest::read_back(p, v, payload, payload);
        },
        MessageModel::Health(v) => {
            HealthRequest::read_back(p, v, payload, payload);
        },
        MessageModel::HelloReply(v) => {
            HelloResponse::read_back(p, v, payload, payload);
        },
        MessageModel::Ack(v) => {
            Ack::read_back(p, v, payload, payload);
        },
        MessageModel::HealthReply(v) => {
            HealthResponse::read_back(p, v, payload, payload);
        },
        MessageModel::Error(v) => {
            ErrorResponse::read_back(p, v, payload, payload);
        },
    }
}

/// An error whose text is neither empty nor too long can be encoded.
pub proof fn errors_can_be_sent(v: ErrorModel)
    requires
        0 < encode_utf8(v.message).len() <= MAX_ERROR_TEXT_BYTES,
    ensures
        encoded(MessageModel::Error(v)) is Ok,
{
    let start = Emit::Bytes(Seq::empty());
    let coded = emit_u8(start, error_tag(v.code));
    let flagged = emit_bool(coded, v.retryable);
    let n = encode_utf8(v.message).len();
    lemma_be_len(n, 2);
    assert(coded is Bytes && coded->Bytes_0.len() == 1);
    assert(flagged is Bytes && flagged->Bytes_0.len() == 2);
    let whole = emit_string(flagged, v.message, MAX_ERROR_TEXT_BYTES as nat, "error message");
    assert(whole is Bytes && whole->Bytes_0.len() == 4 + n);
    assert(emit_payload(start, MessageModel::Error(v)) == whole);
}

/// Decoding the frame of a message gives the message.
#[verifier::spinoff_prover]
#[verifier::rlimit(60)]
pub proof fn frame_round_trip(m: MessageModel, frame: Seq<u8>)
    requires
        message_ordered(m),
        encoded(m) == Ok::<Seq<u8>, ProtocolError>(frame),
    ensures
        decoded(frame) == Ok::<MessageModel, ProtocolError>(m),
{
    let payload = emit_payload(Emit::Bytes(Seq::empty()), m)->Bytes_0;
    let kind = kind_of(m);
    let body = frame_body(kind, payload);
    let n = payload.len();
    lemma_pow256_values();
    lemma_be_round_trip(PROTOCOL_VERSION as nat, 2);
    lemma_be_round_trip(n, 4);
    lemma_be_round_trip(crc32_of(body) as nat, 4);
    assert(frame.len() == n + 16);
    assert(frame.subrange(0, 4) =~= magic());
    assert(frame.subrange(4, 6) =~= be(PROTOCOL_VERSION as nat, 2));
    assert(frame[6] == kind && frame[7] == 0);
    assert(frame.subrange(8, 12) =~= be(n, 4));
    assert(frame.subrange(12, n + 12int) =~= payload);
    assert(frame.subrange(0, n + 12int) =~= body);
    assert(frame.subrange(n + 12int, n + 16int) =~= be(crc32_of(body) as nat, 4));
    payload_round_trip(m, payload);
}

/// A frame is never longer than the limit, and its header alone tells its length.
pub proof fn frame_is_bounded(m: MessageModel, frame: Seq<u8>)
    requires
        encoded(m) == Ok::<Seq<u8>, ProtocolError>(frame),
    ensures
        16 <= frame.len() <= MAX_FRAME_BYTES,
        header(frame.subrange(0, 12)) == Ok::<(u8, nat), ProtocolError>((kind_of(m), frame.len())),
{
    let payload = emit_payload(Emit::Bytes(Seq::empty()), m)->Bytes_0;
    let kind = kind_of(m);
    let n = payload.len();
    lemma_pow256_values();
    lemma_be_round_trip(PROTOCOL_VERSION as nat, 2);
    lemma_be_round_trip(n, 4);
    lemma_be_len(crc32_of(frame_body(kind, payload)) as nat, 4);
    let head = frame.subrange(0, 12);
    assert(head.subrange(0, 4) =~= magic());
    assert(head.subrange(4, 6) =~= be(PROTOCOL_VERSION as nat, 2));
    assert(head[6] == kind && head[7] == 0);
    assert(head.subrange(8, 12) =~= be(n, 4));
}

/// Reading what is wanted never goes past the end of the frame: a message is found in
/// what was read only once nothing more is wanted.
pub proof fn frames_are_read_to_their_end(received: Seq<u8>)
    ensures
        decoded(received) is Ok ==> wanted(received) == 0,
        received.len() + wanted(received) <= MAX_FRAME_BYTES || wanted(received) == 0,
{
}

} // verus!
