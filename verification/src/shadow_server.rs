//! Local socket server for the shadow protocol.
//!
//! Version one serves one client at a time. A greeting binds each connection to one
//! ingress source. The durable store checks source, sequence, commit identifier and
//! transaction bytes. This module holds what the server decides: who may connect,
//! what a message asks of the writer, and what is answered. Sockets, clocks and
//! threads stand around it.
use crate::bytes::put_be;
#[allow(unused_imports)]
use crate::bytes::be;
use crate::error::Error;
use crate::shadow_protocol::{
    Ack, AckKind, CommitBatchRequest, ErrorCode, ErrorResponse, HealthResponse, HealthStatus,
    HelloResponse, ProtocolError, Request, Response, SyncPolicy, WireMessage, PROTOCOL_VERSION,
};
#[allow(unused_imports)]
use crate::shadow_protocol::{
    decoded, encoded, errors_can_be_sent, frame_round_trip, BatchModel, ErrorModel, HelloModel, HelloReplyModel,
    MessageModel,
};
use crate::shadow_runtime::{
    watermarks_in, AckWaitError, FlushSubmitError, ShadowAck, ShadowFlushAck, ShadowFlushFailure,
    ShadowHealth, ShadowRuntimeState, ShadowWrite, ShadowWriteFailure, SubmitError,
};
#[allow(unused_imports)]
use crate::shadow_runtime::{one_more, watermarks_of};
use crate::storage::{Durability, IngressIdentity};
use crate::text_scan::{characters, parse_unsigned};
#[allow(unused_imports)]
use crate::text_scan::{unsigned_value, IntegerFault};
use crate::transaction::transaction_from_batch;
#[allow(unused_imports)]
use crate::transaction::batch_records;
use vstd::prelude::*;
use vstd::string::*;
#[allow(unused_imports)]
use vstd::utf8::*;

verus! {

/// Limits for the local sidecar endpoint.
#[derive(Debug, PartialEq, Eq)]
pub struct ShadowServerConfig {
    pub socket_path: String,
    /// Effective user allowed to use the socket.
    pub allowed_peer_uid: u32,
    pub io_timeout_nanos: u128,
    pub acknowledgement_timeout_nanos: u128,
    pub accept_poll_interval_nanos: u128,
}

impl ShadowServerConfig {
    /// The usual limits, for clients that run as `effective_uid`.
    pub fn new(socket_path: String, effective_uid: u32) -> (config: Self)
        ensures
            config == (ShadowServerConfig {
                socket_path,
                allowed_peer_uid: effective_uid,
                io_timeout_nanos: 2_000_000_000,
                acknowledgement_timeout_nanos: 5_000_000_000,
                accept_poll_interval_nanos: 20_000_000,
            }),
    {
        ShadowServerConfig {
            socket_path,
            allowed_peer_uid: effective_uid,
            io_timeout_nanos: 2_000_000_000,
            acknowledgement_timeout_nanos: 5_000_000_000,
            accept_poll_interval_nanos: 20_000_000,
        }
    }

    /// Refuses limits under which the server would not wait at all.
    pub fn validate(&self) -> (outcome: Result<(), ShadowServerError>)
        ensures
            outcome is Ok <==> self.io_timeout_nanos > 0 && self.acknowledgement_timeout_nanos > 0
                && self.accept_poll_interval_nanos > 0,
            outcome matches Err(error) ==> error matches ShadowServerError::Io(reason) && reason@
                == "shadow server timeouts must be positive"@,
    {
        if self.io_timeout_nanos == 0 || self.acknowledgement_timeout_nanos == 0
            || self.accept_poll_interval_nanos == 0 {
            return Err(ShadowServerError::Io("shadow server timeouts must be positive".to_owned()));
        }
        Ok(())
    }
}

/// Stop flag for clean service shutdown. There is one of it: it cannot be copied, so that
/// all who look at it see that it was set. Whoever shares it shares the flag itself.
#[derive(Debug)]
pub struct ShadowStopToken {
    stopped: bool,
}

impl ShadowStopToken {
    pub closed spec fn stop_asked(self) -> bool {
        self.stopped
    }

    pub fn new() -> (token: Self)
        ensures
            !token.stop_asked(),
    {
        ShadowStopToken { stopped: false }
    }

    /// Asks to stop, for good.
    pub fn stop(&mut self)
        ensures
            final(self).stop_asked(),
    {
        self.stopped = true;
    }

    pub fn is_stopped(&self) -> (yes: bool)
        ensures
            yes == self.stop_asked(),
    {
        self.stopped
    }
}

#[derive(Clone, Copy, Debug, PartialEq, Eq, Structural)]
pub struct ShadowServerReport {
    pub accepted_clients: u64,
    pub peer_auth_failures: u64,
    pub client_errors: u64,
}

impl Default for ShadowServerReport {
    fn default() -> (report: Self)
        ensures
            report == (ShadowServerReport {
                accepted_clients: 0,
                peer_auth_failures: 0,
                client_errors: 0,
            }),
    {
        ShadowServerReport { accepted_clients: 0, peer_auth_failures: 0, client_errors: 0 }
    }
}

impl ShadowServerReport {
    /// A client connected.
    pub fn accept_client(&mut self)
        ensures
            *final(self) == (ShadowServerReport {
                accepted_clients: one_more(old(self).accepted_clients),
                ..*old(self)
            }),
    {
        self.accepted_clients = self.accepted_clients.saturating_add(1);
    }

    /// Whether a client that runs as `peer_uid` is served. The check does not trust
    /// the mode of the socket file alone: a process that received an open
    /// descriptor still has to run as the configured user.
    pub fn authorize(&mut self, peer_uid: u32, allowed_peer_uid: u32) -> (served: bool)
        ensures
            served == (peer_uid == allowed_peer_uid),
            *final(self) == if served {
                *old(self)
            } else {
                ShadowServerReport {
                    peer_auth_failures: one_more(old(self).peer_auth_failures),
                    ..*old(self)
                }
            },
    {
        if peer_uid != allowed_peer_uid {
            self.peer_auth_failures = self.peer_auth_failures.saturating_add(1);
            return false;
        }
        true
    }

    /// A client that was served has left.
    pub fn finish_client(&mut self, clean: bool)
        ensures
            *final(self) == if clean {
                *old(self)
            } else {
                ShadowServerReport {
                    client_errors: one_more(old(self).client_errors),
                    ..*old(self)
                }
            },
    {
        if !clean {
            self.client_errors = self.client_errors.saturating_add(1);
        }
    }
}

/// Why the server cannot serve. Texts of the operating system are kept as they came.
#[allow(inconsistent_fields)]
#[derive(Debug, PartialEq, Eq)]
pub enum ShadowServerError {
    MissingSocketParent,
    UnsafeSocketParent(String),
    ExistingPathIsNotSocket(String),
    SocketInUse(String),
    CouldNotProveSocketStale { path: String, error: String },
    PeerCredentials(String),
    Io(String),
}

/// What a server error says.
pub open spec fn server_error_text(error: ShadowServerError) -> Seq<char> {
    match error {
        ShadowServerError::MissingSocketParent => "socket path needs a parent directory"@,
        ShadowServerError::UnsafeSocketParent(path) =>
            "socket parent is not a real directory: "@ + path@,
        ShadowServerError::ExistingPathIsNotSocket(path) =>
            "refusing to replace a non-socket path: "@ + path@,
        ShadowServerError::SocketInUse(path) => "a listener already owns "@ + path@,
        ShadowServerError::CouldNotProveSocketStale { path, error } => "could not prove that "@
            + path@ + " is stale: "@ + error@,
        ShadowServerError::PeerCredentials(error) => "could not read Unix peer credentials: "@
            + error@,
        ShadowServerError::Io(error) => "shadow server I/O error: "@ + error@,
    }
}

impl ShadowServerError {
    pub fn message(&self) -> (text: String)
        ensures
            text@ == server_error_text(*self),
    {
        let mut text = String::new();
        match self {
            ShadowServerError::MissingSocketParent => {
                text.append("socket path needs a parent directory");
            },
            ShadowServerError::UnsafeSocketParent(path) => {
                text.append("socket parent is not a real directory: ");
                text.append(path.as_str());
            },
            ShadowServerError::ExistingPathIsNotSocket(path) => {
                text.append("refusing to replace a non-socket path: ");
                text.append(path.as_str());
            },
            ShadowServerError::SocketInUse(path) => {
                text.append("a listener already owns ");
                text.append(path.as_str());
            },
            ShadowServerError::CouldNotProveSocketStale { path, error } => {
                text.append("could not prove that ");
                text.append(path.as_str());
                text.append(" is stale: ");
                text.append(error.as_str());
            },
            ShadowServerError::PeerCredentials(error) => {
                text.append("could not read Unix peer credentials: ");
                text.append(error.as_str());
            },
            ShadowServerError::Io(error) => {
                text.append("shadow server I/O error: ");
                text.append(error.as_str());
            },
        }
        assert(text@ =~= server_error_text(*self));
        text
    }
}

/// What the file system says of a path.
#[derive(Clone, Copy, Debug, PartialEq, Eq, Structural)]
pub struct PathFacts {
    pub is_directory: bool,
    pub is_socket: bool,
    pub owner: u32,
    pub mode: u32,
    pub device: u64,
    pub inode: u64,
}

/// The socket directory itself must be for its owner alone. A directory that others
/// may enter lets another local user reach the socket before its mode is set.
pub fn check_private_socket_parent(path: &str, facts: &PathFacts, effective_uid: u32) -> (outcome:
    Result<(), ShadowServerError>)
    ensures
        outcome is Ok <==> facts.is_directory && facts.owner == effective_uid && facts.mode & 0o777
            == 0o700,
        outcome matches Err(error) ==> error matches ShadowServerError::UnsafeSocketParent(found)
            && found@ == path@,
{
    if facts.is_directory && facts.owner == effective_uid && facts.mode & 0o777 == 0o700 {
        Ok(())
    } else {
        Err(ShadowServerError::UnsafeSocketParent(path.to_owned()))
    }
}

/// An existing ancestor may be open for reading but must not be writable for group or
/// world: creating a private child in such a directory races with symbolic links.
pub fn check_existing_ancestor(path: &str, facts: &PathFacts, effective_uid: u32) -> (outcome:
    Result<(), ShadowServerError>)
    ensures
        outcome is Ok <==> facts.is_directory && facts.owner == effective_uid && facts.mode & 0o022
            == 0,
        outcome matches Err(error) ==> error matches ShadowServerError::UnsafeSocketParent(found)
            && found@ == path@,
{
    if facts.is_directory && facts.owner == effective_uid && facts.mode & 0o022 == 0 {
        Ok(())
    } else {
        Err(ShadowServerError::UnsafeSocketParent(path.to_owned()))
    }
}

/// Whether a path still leads to the socket that was found there.
pub open spec fn same_socket(found: PathFacts, current: PathFacts) -> bool {
    current.is_socket && current.device == found.device && current.inode == found.inode
}

pub fn is_same_socket(found: &PathFacts, current: &PathFacts) -> (yes: bool)
    ensures
        yes == same_socket(*found, *current),
{
    current.is_socket && current.device == found.device && current.inode == found.inode
}

/// Only a socket is ever replaced.
pub fn check_replaceable(path: &str, facts: &PathFacts) -> (outcome: Result<
    (),
    ShadowServerError,
>)
    ensures
        outcome is Ok <==> facts.is_socket,
        outcome matches Err(error) ==> error matches ShadowServerError::ExistingPathIsNotSocket(
            found,
        ) && found@ == path@,
{
    if !facts.is_socket {
        return Err(ShadowServerError::ExistingPathIsNotSocket(path.to_owned()));
    }
    Ok(())
}

/// How a connection to an existing socket went.
#[derive(Debug, PartialEq, Eq)]
pub enum ConnectAttempt {
    Connected,
    /// Nobody listens there, or the path is gone.
    Refused,
    Failed(String),
}

/// Whether the listener of a socket is known to be gone, so that the socket may be
/// removed: nobody answered, and the path still leads to the socket that was asked.
pub fn prove_stale(
    path: &str,
    found: &PathFacts,
    attempt: ConnectAttempt,
    current: &PathFacts,
) -> (outcome: Result<(), ShadowServerError>)
    ensures
        match attempt {
            ConnectAttempt::Connected => outcome matches Err(
                ShadowServerError::SocketInUse(owned),
            ) && owned@ == path@,
            ConnectAttempt::Refused => if same_socket(*found, *current) {
                outcome is Ok
            } else {
                outcome matches Err(
                    ShadowServerError::CouldNotProveSocketStale { path: p, error },
                ) && p@ == path@ && error@ == "socket path changed during the stale check"@
            },
            ConnectAttempt::Failed(reason) => outcome matches Err(
                ShadowServerError::CouldNotProveSocketStale { path: p, error },
            ) && p@ == path@ && error == reason,
        },
{
    match attempt {
        ConnectAttempt::Connected => Err(ShadowServerError::SocketInUse(path.to_owned())),
        ConnectAttempt::Refused => {
            if !is_same_socket(found, current) {
                return Err(
                    ShadowServerError::CouldNotProveSocketStale {
                        path: path.to_owned(),
                        error: "socket path changed during the stale check".to_owned(),
                    },
                );
            }
            Ok(())
        },
        ConnectAttempt::Failed(error) => Err(
            ShadowServerError::CouldNotProveSocketStale { path: path.to_owned(), error },
        ),
    }
}

/// Why a store directory is not private to this user.
#[derive(Debug, PartialEq, Eq)]
pub enum StoreRootError {
    NotADirectory(String),
    OtherOwner(String),
    WrongMode(String),
}

impl StoreRootError {
    pub fn message(&self) -> (text: String)
        ensures
            text@ == match *self {
                StoreRootError::NotADirectory(path) => "store root is not a real directory: "@
                    + path@,
                StoreRootError::OtherOwner(path) => "store root has another owner: "@ + path@,
                StoreRootError::WrongMode(path) => "store root must have mode 0700: "@ + path@,
            },
    {
        let mut text = String::new();
        match self {
            StoreRootError::NotADirectory(path) => {
                text.append("store root is not a real directory: ");
                text.append(path.as_str());
            },
            StoreRootError::OtherOwner(path) => {
                text.append("store root has another owner: ");
                text.append(path.as_str());
            },
            StoreRootError::WrongMode(path) => {
                text.append("store root must have mode 0700: ");
                text.append(path.as_str());
            },
        }
        assert(text@ =~= match *self {
            StoreRootError::NotADirectory(path) => "store root is not a real directory: "@ + path@,
            StoreRootError::OtherOwner(path) => "store root has another owner: "@ + path@,
            StoreRootError::WrongMode(path) => "store root must have mode 0700: "@ + path@,
        });
        text
    }
}

/// A store is kept in a directory that is for this user alone.
pub fn check_private_store_root(path: &str, facts: &PathFacts, effective_uid: u32) -> (outcome:
    Result<(), StoreRootError>)
    ensures
        match outcome {
            Ok(()) => facts.is_directory && facts.owner == effective_uid && facts.mode & 0o777
                == 0o700,
            Err(StoreRootError::NotADirectory(found)) => !facts.is_directory && found@ == path@,
            Err(StoreRootError::OtherOwner(found)) => facts.is_directory && facts.owner
                != effective_uid && found@ == path@,
            Err(StoreRootError::WrongMode(found)) => facts.is_directory && facts.owner
                == effective_uid && facts.mode & 0o777 != 0o700 && found@ == path@,
        },
{
    if !facts.is_directory {
        return Err(StoreRootError::NotADirectory(path.to_owned()));
    }
    if facts.owner != effective_uid {
        return Err(StoreRootError::OtherOwner(path.to_owned()));
    }
    if facts.mode & 0o777 != 0o700 {
        return Err(StoreRootError::WrongMode(path.to_owned()));
    }
    Ok(())
}

/// A limit in bytes that the environment may set.
pub fn limit_from_env(name: &str, value: Option<&str>, default: u64) -> (outcome: Result<
    u64,
    String,
>)
    ensures
        match value {
            None => outcome == Ok::<u64, String>(default),
            Some(text) => match outcome {
                Ok(limit) => limit > 0 && unsigned_value(text@) == Ok::<nat, IntegerFault>(
                    limit as nat,
                ),
                Err(said) => {
                    &&& unsigned_value(text@) matches Ok(n) ==> n == 0
                    &&& said@ == name@ + " must be a positive byte count"@
                },
            },
        },
{
    let text = match value {
        None => {
            return Ok(default);
        },
        Some(text) => text,
    };
    match parse_unsigned(characters(text).as_slice()) {
        Ok(limit) => if limit > 0 {
            return Ok(limit);
        },
        Err(_) => {},
    }
    let mut said = name.to_owned();
    said.append(" must be a positive byte count");
    Err(said)
}

// Answers.

/// The fixed text for an error code. It tells a client nothing of the store.
pub open spec fn stable_text(code: ErrorCode) -> Seq<char> {
    match code {
        ErrorCode::InvalidRequest => "invalid request"@,
        ErrorCode::Overloaded => "shadow writer overloaded"@,
        ErrorCode::Internal => "shadow writer unavailable"@,
        ErrorCode::Unsupported => "unsupported protocol version"@,
        ErrorCode::IdempotencyConflict => "idempotency conflict"@,
    }
}

pub open spec fn error_answer(code: ErrorCode, retryable: bool) -> MessageModel {
    MessageModel::Error(ErrorModel { code, retryable, message: stable_text(code) })
}

proof fn lemma_stable_texts(code: ErrorCode)
    ensures
        0 < encode_utf8(stable_text(code)).len() <= 64,
{
    reveal_strlit("invalid request");
    reveal_strlit("shadow writer overloaded");
    reveal_strlit("shadow writer unavailable");
    reveal_strlit("unsupported protocol version");
    reveal_strlit("idempotency conflict");
    let text = stable_text(code);
    assert(is_ascii_chars(text));
    is_ascii_chars_encode_utf8(text);
}

/// Whatever a request is refused for, the refusal can be sent, and a client that reads it
/// finds the code, whether to try again, and the text.
pub proof fn refusals_reach_the_client(code: ErrorCode, retryable: bool)
    ensures
        encoded(error_answer(code, retryable)) is Ok,
        decoded(encoded(error_answer(code, retryable))->Ok_0) == Ok::<MessageModel, ProtocolError>(
            error_answer(code, retryable),
        ),
{
    lemma_stable_texts(code);
    let v = ErrorModel { code, retryable, message: stable_text(code) };
    errors_can_be_sent(v);
    frame_round_trip(error_answer(code, retryable), encoded(error_answer(code, retryable))->Ok_0);
}

pub fn stable_error(code: ErrorCode, retryable: bool) -> (message: WireMessage)
    ensures
        message.deep_view() == error_answer(code, retryable),
{
    let text = match code {
        ErrorCode::InvalidRequest => "invalid request",
        ErrorCode::Overloaded => "shadow writer overloaded",
        ErrorCode::Internal => "shadow writer unavailable",
        ErrorCode::Unsupported => "unsupported protocol version",
        ErrorCode::IdempotencyConflict => "idempotency conflict",
    };
    WireMessage::Response(
        Response::Error(ErrorResponse { code, retryable, message: text.to_owned() }),
    )
}

/// What a client is told of a write that was not accepted.
pub open spec fn submit_answer(error: SubmitError) -> MessageModel {
    match error {
        SubmitError::Overloaded(_) => error_answer(ErrorCode::Overloaded, true),
        SubmitError::PointBudgetExhausted(_) => error_answer(ErrorCode::Overloaded, true),
        SubmitError::DeadlineExceeded(_) => error_answer(ErrorCode::Overloaded, true),
        SubmitError::Closed(_) => error_answer(ErrorCode::Internal, true),
        SubmitError::Poisoned { .. } => error_answer(ErrorCode::Internal, true),
    }
}

pub fn map_submit_error(error: SubmitError) -> (message: WireMessage)
    ensures
        message.deep_view() == submit_answer(error),
{
    match error {
        SubmitError::Overloaded(_) => stable_error(ErrorCode::Overloaded, true),
        SubmitError::PointBudgetExhausted(_) => stable_error(ErrorCode::Overloaded, true),
        SubmitError::DeadlineExceeded(_) => stable_error(ErrorCode::Overloaded, true),
        SubmitError::Closed(_) => stable_error(ErrorCode::Internal, true),
        SubmitError::Poisoned { .. } => stable_error(ErrorCode::Internal, true),
    }
}

/// What a client is told of a request that storage rejected.
pub open spec fn store_answer(error: Error) -> MessageModel {
    match error {
        Error::IngressSourceSequenceConflict { .. } => error_answer(
            ErrorCode::IdempotencyConflict,
            false,
        ),
        Error::IngressCommitIdConflict { .. } => error_answer(
            ErrorCode::IdempotencyConflict,
            false,
        ),
        Error::IngressSequenceNotIncreasing { .. } => error_answer(
            ErrorCode::InvalidRequest,
            false,
        ),
        Error::BatchTooLarge { .. } => error_answer(ErrorCode::InvalidRequest, false),
        Error::InvalidArgument(_) => error_answer(ErrorCode::InvalidRequest, false),
        Error::InvalidModel(_) => error_answer(ErrorCode::InvalidRequest, false),
        Error::Serialization(_) => error_answer(ErrorCode::InvalidRequest, false),
        _ => error_answer(ErrorCode::Internal, true),
    }
}

pub fn map_store_error(error: &Error) -> (message: WireMessage)
    ensures
        message.deep_view() == store_answer(*error),
{
    match error {
        Error::IngressSourceSequenceConflict { .. } => stable_error(
            ErrorCode::IdempotencyConflict,
            false,
        ),
        Error::IngressCommitIdConflict { .. } => stable_error(
            ErrorCode::IdempotencyConflict,
            false,
        ),
        Error::IngressSequenceNotIncreasing { .. } => stable_error(
            ErrorCode::InvalidRequest,
            false,
        ),
        Error::BatchTooLarge { .. } => stable_error(ErrorCode::InvalidRequest, false),
        Error::InvalidArgument(_) => stable_error(ErrorCode::InvalidRequest, false),
        Error::InvalidModel(_) => stable_error(ErrorCode::InvalidRequest, false),
        Error::Serialization(_) => stable_error(ErrorCode::InvalidRequest, false),
        _ => stable_error(ErrorCode::Internal, true),
    }
}

pub open spec fn write_failure_answer(failure: ShadowWriteFailure) -> MessageModel {
    match failure {
        ShadowWriteFailure::Rejected(error) => store_answer(error),
        _ => error_answer(ErrorCode::Internal, true),
    }
}

pub fn map_write_failure(failure: ShadowWriteFailure) -> (message: WireMessage)
    ensures
        message.deep_view() == write_failure_answer(failure),
{
    match failure {
        ShadowWriteFailure::Rejected(error) => map_store_error(&error),
        _ => stable_error(ErrorCode::Internal, true),
    }
}

pub open spec fn flush_submit_answer(error: FlushSubmitError) -> MessageModel {
    match error {
        FlushSubmitError::Overloaded => error_answer(ErrorCode::Overloaded, true),
        FlushSubmitError::DeadlineExceeded => error_answer(ErrorCode::Overloaded, true),
        FlushSubmitError::Closed => error_answer(ErrorCode::Internal, true),
        FlushSubmitError::Poisoned { .. } => error_answer(ErrorCode::Internal, true),
    }
}

pub fn map_flush_submit_error(error: FlushSubmitError) -> (message: WireMessage)
    ensures
        message.deep_view() == flush_submit_answer(error),
{
    match error {
        FlushSubmitError::Overloaded => stable_error(ErrorCode::Overloaded, true),
        FlushSubmitError::DeadlineExceeded => stable_error(ErrorCode::Overloaded, true),
        FlushSubmitError::Closed => stable_error(ErrorCode::Internal, true),
        FlushSubmitError::Poisoned { .. } => stable_error(ErrorCode::Internal, true),
    }
}

pub open spec fn flush_failure_answer(failure: ShadowFlushFailure) -> MessageModel {
    match failure {
        ShadowFlushFailure::NotAccepted { .. } => error_answer(ErrorCode::InvalidRequest, true),
        ShadowFlushFailure::Rejected(error) => store_answer(error),
        _ => error_answer(ErrorCode::Internal, true),
    }
}

pub fn map_flush_failure(failure: ShadowFlushFailure) -> (message: WireMessage)
    ensures
        message.deep_view() == flush_failure_answer(failure),
{
    match failure {
        ShadowFlushFailure::NotAccepted { .. } => stable_error(ErrorCode::InvalidRequest, true),
        ShadowFlushFailure::Rejected(error) => map_store_error(&error),
        _ => stable_error(ErrorCode::Internal, true),
    }
}

pub fn map_wait_error(_error: AckWaitError) -> (message: WireMessage)
    ensures
        message.deep_view() == error_answer(ErrorCode::Internal, true),
{
    stable_error(ErrorCode::Internal, true)
}

/// A count in the width of the protocol. It stops at the largest one.
pub open spec fn narrowed(count: usize) -> u32 {
    if count > u32::MAX {
        u32::MAX
    } else {
        count as u32
    }
}

fn narrow(count: usize) -> (n: u32)
    ensures
        n == narrowed(count),
{
    if count > u32::MAX as usize {
        u32::MAX
    } else {
        count as u32
    }
}

/// The write that a batch asks for.
pub fn commit_write(batch: CommitBatchRequest) -> (write: ShadowWrite)
    ensures
        write.named(),
        write.ingress() == (IngressIdentity {
            source_id: batch.source_id,
            sequence: batch.sequence,
            commit_id: batch.commit_id,
        }),
        write.content().deep_view() == batch_records(batch.deep_view()),
{
    let identity = IngressIdentity::new(batch.source_id, batch.sequence, batch.commit_id);
    ShadowWrite::identified(identity, transaction_from_batch(batch))
}

/// What a client is told of a write that was accepted into the queue.
pub open spec fn commit_answer(
    identity: IngressIdentity,
    outcome: Result<Result<ShadowAck, ShadowWriteFailure>, AckWaitError>,
) -> MessageModel {
    match outcome {
        Err(_) => error_answer(ErrorCode::Internal, true),
        Ok(Err(failure)) => write_failure_answer(failure),
        Ok(Ok(acknowledgement)) => MessageModel::Ack(
            Ack {
                kind: AckKind::CommitBatch,
                source_id: identity.source_id,
                sequence: identity.sequence,
                commit_id: identity.commit_id,
                accepted_through_sequence: acknowledgement.accepted_through,
                durable_through_sequence: acknowledgement.durable_through,
                durable: acknowledgement.commit.durable,
                deduplicated: acknowledgement.commit.deduplicated,
                frame_offset: acknowledgement.commit.frame_offset,
                records: narrowed(acknowledgement.commit.records),
                points: narrowed(acknowledgement.commit.points),
                bytes_written: acknowledgement.commit.bytes_written,
            },
        ),
    }
}

/// Answers a write that was accepted into the queue.
pub fn handle_commit(
    identity: IngressIdentity,
    outcome: Result<Result<ShadowAck, ShadowWriteFailure>, AckWaitError>,
) -> (message: WireMessage)
    ensures
        message.deep_view() == commit_answer(identity, outcome),
        outcome matches Ok(Ok(acknowledgement)) ==> message.deep_view() matches MessageModel::Ack(
            told,
        ) && told.durable == acknowledgement.commit.durable,
{
    let acknowledgement = match outcome {
        Ok(Ok(acknowledgement)) => acknowledgement,
        Ok(Err(failure)) => {
            return map_write_failure(failure);
        },
        Err(error) => {
            return map_wait_error(error);
        },
    };
    let commit = acknowledgement.commit;
    WireMessage::Response(
        Response::Ack(
            Ack {
                kind: AckKind::CommitBatch,
                source_id: identity.source_id,
                sequence: identity.sequence,
                commit_id: identity.commit_id,
                accepted_through_sequence: acknowledgement.accepted_through,
                durable_through_sequence: acknowledgement.durable_through,
                durable: commit.durable,
                deduplicated: commit.deduplicated,
                frame_offset: commit.frame_offset,
                records: narrow(commit.records),
                points: narrow(commit.points),
                bytes_written: commit.bytes_written,
            },
        ),
    )
}

/// What a client is told of a flush that was accepted into the queue. A flush that did
/// not make the cursor durable is no success.
pub open spec fn flush_answer(
    source_id: u128,
    through_sequence: u64,
    outcome: Result<Result<ShadowFlushAck, ShadowFlushFailure>, AckWaitError>,
) -> MessageModel {
    match outcome {
        Err(_) => error_answer(ErrorCode::Internal, true),
        Ok(Err(failure)) => flush_failure_answer(failure),
        Ok(Ok(acknowledgement)) => if acknowledgement.durable_through matches Some(watermark)
            && watermark >= through_sequence {
            MessageModel::Ack(
                Ack {
                    kind: AckKind::Flush,
                    source_id,
                    sequence: through_sequence,
                    commit_id: 0,
                    accepted_through_sequence: acknowledgement.accepted_through,
                    durable_through_sequence: acknowledgement.durable_through,
                    durable: true,
                    deduplicated: false,
                    frame_offset: 0,
                    records: 0,
                    points: 0,
                    bytes_written: 0,
                },
            )
        } else {
            error_answer(ErrorCode::Internal, true)
        },
    }
}

/// Answers a flush that was accepted into the queue.
pub fn handle_flush(
    source_id: u128,
    through_sequence: u64,
    outcome: Result<Result<ShadowFlushAck, ShadowFlushFailure>, AckWaitError>,
) -> (message: WireMessage)
    ensures
        message.deep_view() == flush_answer(source_id, through_sequence, outcome),
{
    let acknowledgement = match outcome {
        Ok(Ok(acknowledgement)) => acknowledgement,
        Ok(Err(failure)) => {
            return map_flush_failure(failure);
        },
        Err(error) => {
            return map_wait_error(error);
        },
    };
    let durable = match acknowledgement.durable_through {
        None => false,
        Some(watermark) => watermark >= through_sequence,
    };
    if !durable {
        return stable_error(ErrorCode::Internal, true);
    }
    WireMessage::Response(
        Response::Ack(
            Ack {
                kind: AckKind::Flush,
                source_id,
                sequence: through_sequence,
                commit_id: 0,
                accepted_through_sequence: acknowledgement.accepted_through,
                durable_through_sequence: acknowledgement.durable_through,
                durable: true,
                deduplicated: false,
                frame_offset: 0,
                records: 0,
                points: 0,
                bytes_written: 0,
            },
        ),
    )
}

/// What the server itself has counted for operators.
#[derive(Clone, Copy, Debug, PartialEq, Eq, Structural)]
pub struct ServerCounters {
    pub overload_count: u64,
    pub protocol_error_count: u64,
}

/// Whether an answer tells the client that the writer is overloaded.
pub open spec fn tells_overload(answer: MessageModel) -> bool {
    answer matches MessageModel::Error(error) && error.code == ErrorCode::Overloaded
}

impl ServerCounters {
    /// Counts the end of a connection that is refused.
    pub fn count_end(&mut self, end: &FrameEnd)
        ensures
            *final(self) == if *end is Refuse {
                ServerCounters {
                    protocol_error_count: one_more(old(self).protocol_error_count),
                    ..*old(self)
                }
            } else {
                *old(self)
            },
    {
        match end {
            FrameEnd::Refuse(_) => {
                self.protocol_error_count = self.protocol_error_count.saturating_add(1);
            },
            FrameEnd::Clean => {},
        }
    }

    /// Counts an answer that tells of overload.
    pub fn count_answer(&mut self, answer: &WireMessage)
        ensures
            *final(self) == if tells_overload(answer.deep_view()) {
                ServerCounters {
                    overload_count: one_more(old(self).overload_count),
                    ..*old(self)
                }
            } else {
                *old(self)
            },
    {
        if let WireMessage::Response(Response::Error(error)) = answer {
            if error.code == ErrorCode::Overloaded {
                self.overload_count = self.overload_count.saturating_add(1);
            }
        }
    }
}

pub open spec fn policy_of(durability: Durability) -> SyncPolicy {
    match durability {
        Durability::Always => SyncPolicy::Always,
        Durability::Manual => SyncPolicy::Manual,
        Durability::EveryBytes(bytes) => SyncPolicy::EveryBytes(bytes),
    }
}

pub open spec fn status_of_state(state: ShadowRuntimeState) -> HealthStatus {
    match state {
        ShadowRuntimeState::Running => HealthStatus::Healthy,
        ShadowRuntimeState::Closing => HealthStatus::Degraded,
        ShadowRuntimeState::Poisoned => HealthStatus::Unavailable,
        ShadowRuntimeState::Closed => HealthStatus::Unavailable,
    }
}

/// What a client is told of the health of the writer.
pub open spec fn health_answer(
    nonce: u64,
    source_id: u128,
    health: ShadowHealth,
    counters: ServerCounters,
) -> MessageModel {
    let watermarks = watermarks_of(health.source_watermarks@, source_id);
    MessageModel::HealthReply(
        HealthResponse {
            nonce,
            source_id,
            status: status_of_state(health.state),
            queue_entries: narrowed(health.queued),
            accepted_through_sequence: watermarks.accepted_through,
            durable_through_sequence: watermarks.durable_through,
            overload_count: counters.overload_count,
            protocol_error_count: counters.protocol_error_count,
            database_bytes: health.database_bytes,
            database_points: health.database_points,
            database_commits: health.database_commits,
            recovered_tail_bytes: health.recovered_tail_bytes,
            sync_policy: policy_of(health.durability),
            last_ack_durable: health.last_ack_durable,
        },
    )
}

/// Answers a question for the health of the writer.
pub fn handle_health(
    nonce: u64,
    source_id: u128,
    health: &ShadowHealth,
    counters: &ServerCounters,
) -> (message: WireMessage)
    ensures
        message.deep_view() == health_answer(nonce, source_id, *health, *counters),
{
    let watermarks = watermarks_in(&health.source_watermarks, source_id);
    let status = match health.state {
        ShadowRuntimeState::Running => HealthStatus::Healthy,
        ShadowRuntimeState::Closing => HealthStatus::Degraded,
        ShadowRuntimeState::Poisoned => HealthStatus::Unavailable,
        ShadowRuntimeState::Closed => HealthStatus::Unavailable,
    };
    let sync_policy = match health.durability {
        Durability::Always => SyncPolicy::Always,
        Durability::Manual => SyncPolicy::Manual,
        Durability::EveryBytes(bytes) => SyncPolicy::EveryBytes(bytes),
    };
    WireMessage::Response(
        Response::Health(
            HealthResponse {
                nonce,
                source_id,
                status,
                queue_entries: narrow(health.queued),
                accepted_through_sequence: watermarks.accepted_through,
                durable_through_sequence: watermarks.durable_through,
                overload_count: counters.overload_count,
                protocol_error_count: counters.protocol_error_count,
                database_bytes: health.database_bytes,
                database_points: health.database_points,
                database_commits: health.database_commits,
                recovered_tail_bytes: health.recovered_tail_bytes,
                sync_policy,
                last_ack_durable: health.last_ack_durable,
            },
        ),
    )
}

/// A session identifier: the time, and behind it a mark of this process and session.
pub fn session_id(now_micros: u64, mark: u64) -> (id: [u8; 16])
    ensures
        id@ == be(now_micros as nat, 8) + be(mark as nat, 8),
{
    let mut bytes: Vec<u8> = Vec::new();
    put_be(&mut bytes, now_micros as u128, 8);
    put_be(&mut bytes, mark as u128, 8);
    proof {
        crate::bytes::lemma_be_len(now_micros as nat, 8);
        crate::bytes::lemma_be_len(mark as nat, 8);
    }
    let id = [
        bytes[0],
        bytes[1],
        bytes[2],
        bytes[3],
        bytes[4],
        bytes[5],
        bytes[6],
        bytes[7],
        bytes[8],
        bytes[9],
        bytes[10],
        bytes[11],
        bytes[12],
        bytes[13],
        bytes[14],
        bytes[15],
    ];
    assert(id@ =~= bytes@);
    id
}

// Connections.

/// One connection. It belongs to the source that it greeted with.
#[derive(Clone, Copy, Debug, PartialEq, Eq)]
pub struct Session {
    pub source_id: Option<u128>,
}

/// What a message asks of the server.
#[allow(inconsistent_fields)]
#[derive(Debug, PartialEq)]
pub enum Turn {
    /// The answer is known.
    Answer(WireMessage),
    Commit(CommitBatchRequest),
    Flush { source_id: u128, through_sequence: u64 },
    Health { nonce: u64, source_id: u128 },
}

/// What a turn holds.
pub enum TurnModel {
    Answer(MessageModel),
    Commit(BatchModel),
    Flush(u128, u64),
    Health(u64, u128),
}

impl DeepView for Turn {
    type V = TurnModel;

    open spec fn deep_view(&self) -> TurnModel {
        match *self {
            Turn::Answer(message) => TurnModel::Answer(message.deep_view()),
            Turn::Commit(batch) => TurnModel::Commit(batch.deep_view()),
            Turn::Flush { source_id, through_sequence } => TurnModel::Flush(
                source_id,
                through_sequence,
            ),
            Turn::Health { nonce, source_id } => TurnModel::Health(nonce, source_id),
        }
    }
}

/// The answer to a request that the state of the connection does not allow.
pub open spec fn invalid_request() -> MessageModel {
    error_answer(ErrorCode::InvalidRequest, false)
}

/// The source of a connection after a message. Only the first greeting that names a
/// source changes it.
pub open spec fn bound_source(bound: Option<u128>, message: MessageModel) -> Option<u128> {
    match message {
        MessageModel::Hello(hello) => if bound is None && hello.source_id != 0 {
            Some(hello.source_id)
        } else {
            bound
        },
        _ => bound,
    }
}

/// What a message asks for on a connection that is bound so.
pub open spec fn turn_for(
    bound: Option<u128>,
    message: MessageModel,
    session_id: Seq<u8>,
    server_time_micros: i64,
) -> TurnModel {
    match message {
        MessageModel::Hello(hello) => if bound is None && hello.source_id != 0 {
            TurnModel::Answer(
                MessageModel::HelloReply(
                    HelloReplyModel {
                        selected_version: PROTOCOL_VERSION,
                        session_id,
                        server_time_micros,
                    },
                ),
            )
        } else {
            TurnModel::Answer(invalid_request())
        },
        MessageModel::CommitBatch(batch) => if bound == Some(batch.source_id) {
            TurnModel::Commit(batch)
        } else {
            TurnModel::Answer(invalid_request())
        },
        MessageModel::Flush(flush) => if bound == Some(flush.source_id) {
            TurnModel::Flush(flush.source_id, flush.through_sequence)
        } else {
            TurnModel::Answer(invalid_request())
        },
        MessageModel::Health(request) => match bound {
            Some(source_id) => TurnModel::Health(request.nonce, source_id),
            None => TurnModel::Answer(invalid_request()),
        },
        _ => TurnModel::Answer(invalid_request()),
    }
}

impl Session {
    /// A connection that has not greeted yet.
    pub fn new() -> (session: Self)
        ensures
            session.source_id is None,
    {
        Session { source_id: None }
    }

    /// Takes in a message. The identifier and the time are told to a client that
    /// greets.
    pub fn receive(
        &mut self,
        message: WireMessage,
        session_id: [u8; 16],
        server_time_micros: i64,
    ) -> (turn: Turn)
        ensures
            final(self).source_id == bound_source(old(self).source_id, message.deep_view()),
            turn.deep_view() == turn_for(
                old(self).source_id,
                message.deep_view(),
                session_id@,
                server_time_micros,
            ),
    {
        let refusal = stable_error(ErrorCode::InvalidRequest, false);
        match message {
            WireMessage::Request(Request::Hello(hello)) => {
                if self.source_id.is_some() || hello.source_id == 0 {
                    return Turn::Answer(refusal);
                }
                self.source_id = Some(hello.source_id);
                Turn::Answer(
                    WireMessage::Response(
                        Response::Hello(
                            HelloResponse {
                                selected_version: PROTOCOL_VERSION,
                                session_id,
                                server_time_micros,
                            },
                        ),
                    ),
                )
            },
            WireMessage::Request(Request::CommitBatch(batch)) => match self.source_id {
                Some(source_id) => if source_id == batch.source_id {
                    Turn::Commit(batch)
                } else {
                    Turn::Answer(refusal)
                },
                None => Turn::Answer(refusal),
            },
            WireMessage::Request(Request::Flush(flush)) => match self.source_id {
                Some(source_id) => if source_id == flush.source_id {
                    Turn::Flush {
                        source_id: flush.source_id,
                        through_sequence: flush.through_sequence,
                    }
                } else {
                    Turn::Answer(refusal)
                },
                None => Turn::Answer(refusal),
            },
            WireMessage::Request(Request::Health(request)) => match self.source_id {
                Some(source_id) => Turn::Health { nonce: request.nonce, source_id },
                None => Turn::Answer(refusal),
            },
            WireMessage::Response(_) => Turn::Answer(refusal),
        }
    }
}

/// How a connection ends where no message could be read.
#[derive(Debug, PartialEq)]
pub enum FrameEnd {
    /// The client closed between two frames, or the server stops.
    Clean,
    /// The client is told this, and the connection counts as an error.
    Refuse(WireMessage),
}

/// Why no message could be read.
#[allow(inconsistent_fields)]
#[derive(Debug, PartialEq, Eq)]
pub enum FrameFault {
    Protocol(ProtocolError),
    /// The stream failed or its deadline passed.
    Stream,
}

/// Decides how a connection ends. The end of the stream before the next frame starts
/// is a normal close of the client; a partial header or body is not.
pub fn end_connection(fault: &FrameFault, stopping: bool) -> (end: FrameEnd)
    ensures
        ({
            let closed = *fault matches FrameFault::Protocol(
                ProtocolError::Truncated { actual, .. },
            ) && actual == 0;
            let outdated = *fault matches FrameFault::Protocol(ProtocolError::UnsupportedVersion(_));
            if closed || stopping {
                end is Clean
            } else {
                end matches FrameEnd::Refuse(message) && message.deep_view() == error_answer(
                    if outdated {
                        ErrorCode::Unsupported
                    } else {
                        ErrorCode::InvalidRequest
                    },
                    false,
                )
            }
        }),
{
    match fault {
        FrameFault::Protocol(ProtocolError::Truncated { actual, .. }) => {
            if *actual == 0 {
                return FrameEnd::Clean;
            }
        },
        _ => {},
    }
    if stopping {
        return FrameEnd::Clean;
    }
    let code = match fault {
        FrameFault::Protocol(ProtocolError::UnsupportedVersion(_)) => ErrorCode::Unsupported,
        _ => ErrorCode::InvalidRequest,
    };
    FrameEnd::Refuse(stable_error(code, false))
}

// Laws.

/// The source of a connection after some messages.
pub open spec fn source_after(bound: Option<u128>, messages: Seq<MessageModel>) -> Option<u128>
    decreases messages.len(),
{
    if messages.len() == 0 {
        bound
    } else {
        bound_source(source_after(bound, messages.drop_last()), messages.last())
    }
}

/// A greeting binds a connection for good: whatever follows, its source stays.
pub proof fn greetings_bind_for_good(source_id: u128, messages: Seq<MessageModel>)
    ensures
        source_after(Some(source_id), messages) == Some(source_id),
    decreases messages.len(),
{
    if messages.len() > 0 {
        greetings_bind_for_good(source_id, messages.drop_last());
    }
}

/// The source that a request names, if it names one.
pub open spec fn named_source(message: MessageModel) -> Option<u128> {
    match message {
        MessageModel::CommitBatch(batch) => Some(batch.source_id),
        MessageModel::Flush(flush) => Some(flush.source_id),
        _ => None,
    }
}

/// Nothing of another source reaches the writer, and nothing at all before the
/// greeting: such requests are answered as invalid, and not to be retried.
pub proof fn other_sources_are_refused(
    bound: Option<u128>,
    message: MessageModel,
    session_id: Seq<u8>,
    server_time_micros: i64,
)
    ensures
        named_source(message) is Some && named_source(message) != bound ==> turn_for(
            bound,
            message,
            session_id,
            server_time_micros,
        ) == TurnModel::Answer(invalid_request()),
        bound is None && !(message is Hello) ==> turn_for(
            bound,
            message,
            session_id,
            server_time_micros,
        ) == TurnModel::Answer(invalid_request()),
{
}

} // verus!
