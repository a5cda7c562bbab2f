//! Bounded, single-writer runtime for local shadow ingestion.
//!
//! Producers submit identified transactions to a fixed-size queue. One worker
//! takes them out and calls storage, so commit order is the queue order and
//! callers never share a mutable storage handle. This module holds the state of
//! the runtime and every decision on it: what enters the queue, what the worker
//! does next, and what a storage result means for the writer and for the health
//! that operators see. Locks, threads and storage calls stand around it.
//!
//! Each write carries an [`IngressIdentity`]. Storage owns per-source ordering,
//! replay checks, conflicts, and durable watermarks, including after restart. The
//! runtime never acknowledges a replay from process-local state.
use crate::error::Error;
#[allow(unused_imports)]
use crate::error::error_text;
use crate::map_keys::u128_keys;
use crate::storage::{Commit, Durability, IngressIdentity, IngressWatermarks};
use crate::text::{put_decimal, put_hex};
#[allow(unused_imports)]
use crate::text::{decimal, hex};
use crate::transaction::Transaction;
#[allow(unused_imports)]
use crate::transaction::counted_points;
use std::collections::{BTreeMap, VecDeque};
use vstd::prelude::*;
use vstd::std_specs::btree::*;
use vstd::string::*;

verus! {

/// Settings for one shadow writer.
#[derive(Clone, Copy, Debug, PartialEq, Eq)]
pub struct ShadowRuntimeConfig {
    /// Maximum number of operations waiting behind the active operation.
    pub queue_capacity: usize,
    /// Maximum total point count in writes waiting behind the active write.
    /// Metadata records and flush operations consume no point budget.
    pub max_queued_points: usize,
    /// Optional interval between maintenance runs, in nanoseconds, for store
    /// backends. Database backends ignore background maintenance.
    pub maintenance_interval_nanos: Option<u128>,
    /// When set on a store backend, seal and reclaim once the active log
    /// exceeds this many bytes after a maintenance tick.
    pub seal_log_bytes_threshold: Option<u64>,
}

impl Default for ShadowRuntimeConfig {
    fn default() -> (config: Self)
        ensures
            config == (ShadowRuntimeConfig {
                queue_capacity: 64,
                max_queued_points: 1_048_576,
                maintenance_interval_nanos: None,
                seal_log_bytes_threshold: None,
            }),
    {
        ShadowRuntimeConfig {
            queue_capacity: 64,
            max_queued_points: 1_048_576,
            maintenance_interval_nanos: None,
            seal_log_bytes_threshold: None,
        }
    }
}

impl ShadowRuntimeConfig {
    /// Whether background maintenance is due, where `since_last_nanos` have passed
    /// since the last run, if there was one.
    pub fn maintenance_due(&self, since_last_nanos: Option<u128>) -> (due: bool)
        ensures
            due == match self.maintenance_interval_nanos {
                None => false,
                Some(interval) => match since_last_nanos {
                    None => true,
                    Some(passed) => passed >= interval,
                },
            },
    {
        match self.maintenance_interval_nanos {
            None => false,
            Some(interval) => match since_last_nanos {
                None => true,
                Some(passed) => passed >= interval,
            },
        }
    }

    /// Whether the active log has grown so far that it is sealed.
    pub fn seal_due(&self, file_bytes: u64) -> (due: bool)
        ensures
            due == match self.seal_log_bytes_threshold {
                None => false,
                Some(threshold) => file_bytes > threshold,
            },
    {
        match self.seal_log_bytes_threshold {
            None => false,
            Some(threshold) => file_bytes > threshold,
        }
    }
}

/// A time since the epoch in microseconds, as signed storage time. What does not
/// fit is the last moment that does.
pub fn storage_micros(micros: u128) -> (time: i64)
    ensures
        time == if micros > i64::MAX {
            i64::MAX as int
        } else {
            micros as int
        },
{
    if micros > i64::MAX as u128 {
        i64::MAX
    } else {
        micros as i64
    }
}

/// One ordered, idempotent storage request.
#[derive(Debug, PartialEq)]
pub struct ShadowWrite {
    identity: IngressIdentity,
    transaction: Transaction,
}

impl ShadowWrite {
    /// The identity of the write.
    pub closed spec fn ingress(self) -> IngressIdentity {
        self.identity
    }

    /// The transaction of the write.
    pub closed spec fn content(self) -> Transaction {
        self.transaction
    }

    /// Whether the transaction carries the identity of the write.
    pub open spec fn named(self) -> bool {
        self.content().ingress == Some(self.ingress())
    }

    /// How many points the write holds.
    pub open spec fn points(self) -> usize {
        counted_points(self.content().deep_view())
    }

    /// A write always carries its identity.
    #[verifier::type_invariant]
    spec fn always_named(self) -> bool {
        self.named()
    }

    /// Builds a write and applies its durable ingress identity.
    pub fn identified(identity: IngressIdentity, transaction: Transaction) -> (write: Self)
        ensures
            write.named(),
            write.ingress() == identity,
            write.content().deep_view() == transaction.deep_view(),
    {
        let mut transaction = transaction;
        transaction.with_ingress_identity(identity);
        ShadowWrite { identity, transaction }
    }

    /// Builds a write from a transaction that already has an ingress identity.
    pub fn from_identified(transaction: Transaction) -> (outcome: Result<Self, UnidentifiedWrite>)
        ensures
            outcome is Ok <==> transaction.ingress is Some,
            outcome matches Ok(write) ==> write.named() && write.content() == transaction,
            outcome matches Err(refused) ==> *refused.transaction == transaction,
    {
        match transaction.ingress_identity() {
            None => Err(UnidentifiedWrite { transaction: Box::new(transaction) }),
            Some(identity) => Ok(ShadowWrite { identity, transaction }),
        }
    }

    pub fn commit_id(&self) -> (commit_id: u128)
        ensures
            commit_id == self.ingress().commit_id,
    {
        self.identity.commit_id
    }

    pub fn sequence(&self) -> (sequence: u64)
        ensures
            sequence == self.ingress().sequence,
    {
        self.identity.sequence
    }

    pub fn source_id(&self) -> (source_id: u128)
        ensures
            source_id == self.ingress().source_id,
    {
        self.identity.source_id
    }

    pub fn identity(&self) -> (identity: IngressIdentity)
        ensures
            identity == self.ingress(),
    {
        self.identity
    }
}

/// A transaction without the commit identifier required by the shadow runtime.
#[derive(Debug, PartialEq)]
pub struct UnidentifiedWrite {
    pub transaction: Box<Transaction>,
}

impl UnidentifiedWrite {
    pub fn into_transaction(self) -> (transaction: Transaction)
        ensures
            transaction == *self.transaction,
    {
        *self.transaction
    }

    pub fn message(&self) -> (text: &'static str)
        ensures
            text == "shadow writes require an ingress identity",
    {
        "shadow writes require an ingress identity"
    }
}

/// The result of an acknowledged sequence.
#[derive(Clone, Copy, Debug, PartialEq, Eq)]
pub struct ShadowAck {
    pub identity: IngressIdentity,
    pub accepted_through: Option<u64>,
    pub durable_through: Option<u64>,
    pub commit: Commit,
}

/// A write that reached the worker but could not be acknowledged.
#[allow(inconsistent_fields)]
#[derive(Debug, PartialEq, Eq)]
pub enum ShadowWriteFailure {
    /// Storage rejected this request before it could change durable state. The
    /// same sequence may be corrected and retried.
    Rejected(Error),
    /// Storage returned an error that may have happened after a durable raw-log
    /// append. The runtime stops making storage calls.
    Writer(Error),
    /// An earlier write failed, so this write never reached storage.
    Poisoned { cause: String },
    /// The storage implementation panicked. The panic stays in the worker and
    /// the runtime rejects later writes.
    WriterPanicked { cause: String },
    WorkerStopped,
}

/// What a write failure says.
pub open spec fn write_failure_text(failure: ShadowWriteFailure) -> Seq<char> {
    match failure {
        ShadowWriteFailure::Rejected(error) => "shadow write was rejected: "@ + error_text(error),
        ShadowWriteFailure::Writer(error) => "shadow writer failed: "@ + error_text(error),
        ShadowWriteFailure::Poisoned { cause } => "shadow writer is poisoned: "@ + cause@,
        ShadowWriteFailure::WriterPanicked { cause } => "shadow writer panicked: "@ + cause@,
        ShadowWriteFailure::WorkerStopped => "shadow writer stopped before replying"@,
    }
}

/// Two texts, one behind the other.
fn joined(front: &str, back: &str) -> (text: String)
    ensures
        text@ == front@ + back@,
{
    let mut text = front.to_owned();
    text.append(back);
    text
}

impl ShadowWriteFailure {
    pub fn message(&self) -> (text: String)
        ensures
            text@ == write_failure_text(*self),
    {
        match self {
            ShadowWriteFailure::Rejected(error) => joined(
                "shadow write was rejected: ",
                error.message().as_str(),
            ),
            ShadowWriteFailure::Writer(error) => joined(
                "shadow writer failed: ",
                error.message().as_str(),
            ),
            ShadowWriteFailure::Poisoned { cause } => joined(
                "shadow writer is poisoned: ",
                cause.as_str(),
            ),
            ShadowWriteFailure::WriterPanicked { cause } => joined(
                "shadow writer panicked: ",
                cause.as_str(),
            ),
            ShadowWriteFailure::WorkerStopped => "shadow writer stopped before replying".to_owned(),
        }
    }
}

/// What came back on the reply channel of an operation.
#[derive(Debug, PartialEq, Eq)]
pub enum Waited<T> {
    Reply(T),
    Timeout,
    Disconnected,
}

#[derive(Clone, Copy, Debug, PartialEq, Eq, Structural)]
pub enum AckWaitError {
    Timeout,
    WorkerStopped,
}

impl AckWaitError {
    pub fn message(&self) -> (text: &'static str)
        ensures
            text == match *self {
                AckWaitError::Timeout => "timed out waiting for the shadow acknowledgement",
                AckWaitError::WorkerStopped => "shadow writer stopped before replying",
            },
    {
        match self {
            AckWaitError::Timeout => "timed out waiting for the shadow acknowledgement",
            AckWaitError::WorkerStopped => "shadow writer stopped before replying",
        }
    }
}

/// A receipt for one accepted queue entry.
#[derive(Debug, PartialEq, Eq)]
pub struct ShadowReceipt {
    pub identity: IngressIdentity,
}

impl ShadowReceipt {
    /// What the worker said, where `reply` is what came before the worker hung up.
    pub fn wait(self, reply: Option<Result<ShadowAck, ShadowWriteFailure>>) -> (outcome: Result<
        ShadowAck,
        ShadowWriteFailure,
    >)
        ensures
            outcome == match reply {
                Some(result) => result,
                None => Err(ShadowWriteFailure::WorkerStopped),
            },
    {
        match reply {
            Some(result) => result,
            None => Err(ShadowWriteFailure::WorkerStopped),
        }
    }

    /// What the worker said in time.
    pub fn wait_timeout(
        self,
        waited: Waited<Result<ShadowAck, ShadowWriteFailure>>,
    ) -> (outcome: Result<Result<ShadowAck, ShadowWriteFailure>, AckWaitError>)
        ensures
            outcome == match waited {
                Waited::Reply(result) => Ok(result),
                Waited::Timeout => Err(AckWaitError::Timeout),
                Waited::Disconnected => Err(AckWaitError::WorkerStopped),
            },
    {
        match waited {
            Waited::Reply(result) => Ok(result),
            Waited::Timeout => Err(AckWaitError::Timeout),
            Waited::Disconnected => Err(AckWaitError::WorkerStopped),
        }
    }
}

/// The result of an ordered flush.
#[derive(Clone, Copy, Debug, PartialEq, Eq)]
pub struct ShadowFlushAck {
    pub source_id: u128,
    pub through_sequence: u64,
    pub accepted_through: Option<u64>,
    pub durable_through: Option<u64>,
}

#[derive(Debug, PartialEq, Eq)]
pub struct ShadowFlushReceipt {}

impl ShadowFlushReceipt {
    /// What the worker said, where `reply` is what came before the worker hung up.
    pub fn wait(self, reply: Option<Result<ShadowFlushAck, ShadowFlushFailure>>) -> (outcome:
        Result<ShadowFlushAck, ShadowFlushFailure>)
        ensures
            outcome == match reply {
                Some(result) => result,
                None => Err(ShadowFlushFailure::WorkerStopped),
            },
    {
        match reply {
            Some(result) => result,
            None => Err(ShadowFlushFailure::WorkerStopped),
        }
    }

    /// What the worker said in time.
    pub fn wait_timeout(
        self,
        waited: Waited<Result<ShadowFlushAck, ShadowFlushFailure>>,
    ) -> (outcome: Result<Result<ShadowFlushAck, ShadowFlushFailure>, AckWaitError>)
        ensures
            outcome == match waited {
                Waited::Reply(result) => Ok(result),
                Waited::Timeout => Err(AckWaitError::Timeout),
                Waited::Disconnected => Err(AckWaitError::WorkerStopped),
            },
    {
        match waited {
            Waited::Reply(result) => Ok(result),
            Waited::Timeout => Err(AckWaitError::Timeout),
            Waited::Disconnected => Err(AckWaitError::WorkerStopped),
        }
    }
}

#[allow(inconsistent_fields)]
#[derive(Debug, PartialEq, Eq)]
pub enum ShadowFlushFailure {
    NotAccepted { source_id: u128, through_sequence: u64, accepted_through: Option<u64> },
    Rejected(Error),
    Writer(Error),
    Poisoned { cause: String },
    WriterPanicked { cause: String },
    WorkerStopped,
}

/// A cursor that may be missing, as it is shown in messages.
pub open spec fn cursor_text(cursor: Option<u64>) -> Seq<char> {
    match cursor {
        None => "None"@,
        Some(n) => "Some("@ + decimal(n as nat) + ")"@,
    }
}

fn put_cursor(out: &mut String, cursor: Option<u64>)
    ensures
        final(out)@ == old(out)@ + cursor_text(cursor),
{
    match cursor {
        None => out.append("None"),
        Some(n) => {
            out.append("Some(");
            put_decimal(out, n as u128);
            out.append(")");
        },
    }
    assert(out@ =~= old(out)@ + cursor_text(cursor));
}

/// What a flush failure says.
pub open spec fn flush_failure_text(failure: ShadowFlushFailure) -> Seq<char> {
    match failure {
        ShadowFlushFailure::NotAccepted { source_id, through_sequence, accepted_through } =>
            "shadow source "@ + hex(source_id as nat, 32) + " has accepted through "@
                + cursor_text(accepted_through) + ", not "@ + decimal(through_sequence as nat),
        ShadowFlushFailure::Rejected(error) => "shadow flush was rejected: "@ + error_text(error),
        ShadowFlushFailure::Writer(error) => "shadow flush failed: "@ + error_text(error),
        ShadowFlushFailure::Poisoned { cause } => "shadow writer is poisoned: "@ + cause@,
        ShadowFlushFailure::WriterPanicked { cause } => "shadow writer panicked during flush: "@
            + cause@,
        ShadowFlushFailure::WorkerStopped => "shadow writer stopped before flushing"@,
    }
}

impl ShadowFlushFailure {
    pub fn message(&self) -> (text: String)
        ensures
            text@ == flush_failure_text(*self),
    {
        match self {
            ShadowFlushFailure::NotAccepted { source_id, through_sequence, accepted_through } => {
                let mut text = "shadow source ".to_owned();
                put_hex(&mut text, *source_id, 32);
                text.append(" has accepted through ");
                put_cursor(&mut text, *accepted_through);
                text.append(", not ");
                put_decimal(&mut text, *through_sequence as u128);
                text
            },
            ShadowFlushFailure::Rejected(error) => joined(
                "shadow flush was rejected: ",
                error.message().as_str(),
            ),
            ShadowFlushFailure::Writer(error) => joined(
                "shadow flush failed: ",
                error.message().as_str(),
            ),
            ShadowFlushFailure::Poisoned { cause } => joined(
                "shadow writer is poisoned: ",
                cause.as_str(),
            ),
            ShadowFlushFailure::WriterPanicked { cause } => joined(
                "shadow writer panicked during flush: ",
                cause.as_str(),
            ),
            ShadowFlushFailure::WorkerStopped => "shadow writer stopped before flushing".to_owned(),
        }
    }
}

#[derive(Debug, PartialEq, Eq)]
pub enum FlushSubmitError {
    Overloaded,
    DeadlineExceeded,
    Closed,
    Poisoned { cause: String },
}

impl FlushSubmitError {
    pub fn message(&self) -> (text: String)
        ensures
            text@ == match *self {
                FlushSubmitError::Overloaded => "shadow writer queue is full"@,
                FlushSubmitError::DeadlineExceeded => "shadow writer queue deadline expired"@,
                FlushSubmitError::Closed => "shadow writer is closed"@,
                FlushSubmitError::Poisoned { cause } => "shadow writer is poisoned: "@ + cause@,
            },
    {
        match self {
            FlushSubmitError::Overloaded => "shadow writer queue is full".to_owned(),
            FlushSubmitError::DeadlineExceeded => "shadow writer queue deadline expired".to_owned(),
            FlushSubmitError::Closed => "shadow writer is closed".to_owned(),
            FlushSubmitError::Poisoned { cause } => joined(
                "shadow writer is poisoned: ",
                cause.as_str(),
            ),
        }
    }

    /// Whether a producer that waits for queue space tries the flush again. Only a
    /// full queue is waited for, and only until the deadline.
    pub fn retry(self, expired: bool) -> (outcome: Result<(), FlushSubmitError>)
        ensures
            outcome == if self is Overloaded {
                if expired {
                    Err(FlushSubmitError::DeadlineExceeded)
                } else {
                    Ok(())
                }
            } else {
                Err(self)
            },
    {
        match self {
            FlushSubmitError::Overloaded => if expired {
                Err(FlushSubmitError::DeadlineExceeded)
            } else {
                Ok(())
            },
            other => Err(other),
        }
    }
}

/// Why a write did not enter the bounded queue.
#[allow(inconsistent_fields)]
#[derive(Debug, PartialEq)]
pub enum SubmitError {
    Overloaded(Box<ShadowWrite>),
    PointBudgetExhausted(Box<ShadowWrite>),
    DeadlineExceeded(Box<ShadowWrite>),
    Closed(Box<ShadowWrite>),
    Poisoned { write: Box<ShadowWrite>, cause: String },
}

/// The write that was refused.
pub open spec fn refused_write(error: SubmitError) -> ShadowWrite {
    match error {
        SubmitError::Overloaded(write) => *write,
        SubmitError::PointBudgetExhausted(write) => *write,
        SubmitError::DeadlineExceeded(write) => *write,
        SubmitError::Closed(write) => *write,
        SubmitError::Poisoned { write, .. } => *write,
    }
}

impl SubmitError {
    pub fn into_write(self) -> (write: ShadowWrite)
        ensures
            write == refused_write(self),
    {
        match self {
            SubmitError::Overloaded(write) => *write,
            SubmitError::PointBudgetExhausted(write) => *write,
            SubmitError::DeadlineExceeded(write) => *write,
            SubmitError::Closed(write) => *write,
            SubmitError::Poisoned { write, .. } => *write,
        }
    }

    pub fn message(&self) -> (text: String)
        ensures
            text@ == match *self {
                SubmitError::Overloaded(_) => "shadow writer queue is full"@,
                SubmitError::PointBudgetExhausted(_) => "shadow writer queued-point limit is full"@,
                SubmitError::DeadlineExceeded(_) => "shadow writer queue deadline expired"@,
                SubmitError::Closed(_) => "shadow writer is closed"@,
                SubmitError::Poisoned { cause, .. } => "shadow writer is poisoned: "@ + cause@,
            },
    {
        match self {
            SubmitError::Overloaded(_) => "shadow writer queue is full".to_owned(),
            SubmitError::PointBudgetExhausted(_) =>
                "shadow writer queued-point limit is full".to_owned(),
            SubmitError::DeadlineExceeded(_) => "shadow writer queue deadline expired".to_owned(),
            SubmitError::Closed(_) => "shadow writer is closed".to_owned(),
            SubmitError::Poisoned { cause, .. } => joined(
                "shadow writer is poisoned: ",
                cause.as_str(),
            ),
        }
    }

    /// The write to try again, for a producer that waits for queue space. Only a
    /// full queue is waited for, and only until the deadline.
    pub fn retry(self, expired: bool) -> (outcome: Result<ShadowWrite, SubmitError>)
        ensures
            outcome == if self is Overloaded || self is PointBudgetExhausted {
                if expired {
                    Err(SubmitError::DeadlineExceeded(Box::new(refused_write(self))))
                } else {
                    Ok(refused_write(self))
                }
            } else {
                Err(self)
            },
    {
        match self {
            SubmitError::Overloaded(write) => if expired {
                Err(SubmitError::DeadlineExceeded(write))
            } else {
                Ok(*write)
            },
            SubmitError::PointBudgetExhausted(write) => if expired {
                Err(SubmitError::DeadlineExceeded(write))
            } else {
                Ok(*write)
            },
            other => Err(other),
        }
    }
}

#[derive(Clone, Copy, Debug, PartialEq, Eq, Structural)]
pub enum ShadowRuntimeState {
    Running,
    Poisoned,
    Closing,
    Closed,
}

/// What storage says of itself.
#[derive(Clone, Copy, Debug, PartialEq, Eq, Structural)]
pub struct StoreOpsSnapshot {
    pub bytes: u64,
    pub points: u64,
    pub commits: u64,
    pub recovered_tail_bytes: u64,
    pub durability: Durability,
    pub last_ack_durable: bool,
}

/// A point-in-time view of writer health.
#[derive(Debug, PartialEq, Eq)]
pub struct ShadowHealth {
    pub state: ShadowRuntimeState,
    pub queue_capacity: usize,
    pub max_queued_points: usize,
    /// Operations waiting in the queue. The active storage call is excluded.
    pub queued: usize,
    /// Points in waiting writes. Points in the active write are excluded.
    pub queued_points: usize,
    pub accepted: u64,
    pub acknowledged: u64,
    pub failed: u64,
    /// Latest authoritative storage watermarks for sources observed by this
    /// runtime. Sources not yet seen by this process are absent.
    pub source_watermarks: BTreeMap<u128, IngressWatermarks>,
    /// Latest fatal writer or close error. Rejected client input increments
    /// `failed` but does not mark a healthy writer as degraded.
    pub last_error: Option<String>,
    pub database_bytes: u64,
    pub database_points: u64,
    pub database_commits: u64,
    pub recovered_tail_bytes: u64,
    pub durability: Durability,
    pub last_ack_durable: bool,
}

/// What a health view holds.
pub struct HealthModel {
    pub state: ShadowRuntimeState,
    pub queue_capacity: usize,
    pub max_queued_points: usize,
    pub queued: usize,
    pub queued_points: usize,
    pub accepted: u64,
    pub acknowledged: u64,
    pub failed: u64,
    pub source_watermarks: Map<u128, IngressWatermarks>,
    pub last_error: Option<Seq<char>>,
    pub store: StoreOpsSnapshot,
}

/// The text of an optional string.
pub open spec fn optional_text(text: Option<String>) -> Option<Seq<char>> {
    match text {
        None => None,
        Some(t) => Some(t@),
    }
}

impl View for ShadowHealth {
    type V = HealthModel;

    open spec fn view(&self) -> HealthModel {
        HealthModel {
            state: self.state,
            queue_capacity: self.queue_capacity,
            max_queued_points: self.max_queued_points,
            queued: self.queued,
            queued_points: self.queued_points,
            accepted: self.accepted,
            acknowledged: self.acknowledged,
            failed: self.failed,
            source_watermarks: self.source_watermarks@,
            last_error: optional_text(self.last_error),
            store: StoreOpsSnapshot {
                bytes: self.database_bytes,
                points: self.database_points,
                commits: self.database_commits,
                recovered_tail_bytes: self.recovered_tail_bytes,
                durability: self.durability,
                last_ack_durable: self.last_ack_durable,
            },
        }
    }
}

/// How much of the queue is taken.
#[derive(Clone, Copy, Debug, PartialEq, Eq, Structural)]
pub struct QueueUsage {
    pub queued: usize,
    pub points: usize,
}

/// Which limit of the queue is reached.
#[derive(Clone, Copy, Debug, PartialEq, Eq, Structural)]
pub enum QueueReservationError {
    Entries,
    Points,
}

/// Which limit one more entry with `points` points would break. Entries come first.
pub open spec fn reservation_fault(
    usage: QueueUsage,
    queue_capacity: usize,
    max_queued_points: usize,
    points: usize,
) -> Option<QueueReservationError> {
    if usage.queued + 1 > queue_capacity {
        Some(QueueReservationError::Entries)
    } else if usage.points + points > max_queued_points {
        Some(QueueReservationError::Points)
    } else {
        None
    }
}

impl Default for QueueUsage {
    fn default() -> (usage: Self)
        ensures
            usage == (QueueUsage { queued: 0, points: 0 }),
    {
        QueueUsage { queued: 0, points: 0 }
    }
}

impl QueueUsage {
    /// Takes room for one entry. A refusal changes neither count.
    pub fn reserve(
        &mut self,
        queue_capacity: usize,
        max_queued_points: usize,
        points: usize,
    ) -> (outcome: Result<(), QueueReservationError>)
        ensures
            match reservation_fault(*old(self), queue_capacity, max_queued_points, points) {
                Some(fault) => outcome == Err::<(), _>(fault) && *final(self) == *old(self),
                None => {
                    &&& outcome is Ok
                    &&& final(self).queued == old(self).queued + 1
                    &&& final(self).points == old(self).points + points
                },
            },
    {
        let next_queued: usize = match self.queued.checked_add(1) {
            Some(next) => next,
            None => {
                return Err(QueueReservationError::Entries);
            },
        };
        if next_queued > queue_capacity {
            return Err(QueueReservationError::Entries);
        }
        let next_points: usize = match self.points.checked_add(points) {
            Some(next) => next,
            None => {
                return Err(QueueReservationError::Points);
            },
        };
        if next_points > max_queued_points {
            return Err(QueueReservationError::Points);
        }
        self.queued = next_queued;
        self.points = next_points;
        Ok(())
    }

    /// Gives back the room of one entry.
    pub fn release(&mut self, points: usize)
        ensures
            final(self).queued == if old(self).queued > 0 {
                old(self).queued - 1
            } else {
                0
            },
            final(self).points == if old(self).points > points {
                old(self).points - points
            } else {
                0
            },
    {
        self.queued = self.queued.saturating_sub(1);
        self.points = self.points.saturating_sub(points);
    }
}

/// One entry of the queue.
#[allow(inconsistent_fields)]
#[derive(Debug, PartialEq)]
pub enum Command {
    Write(ShadowWrite),
    Flush { source_id: u128, through_sequence: u64 },
    Shutdown,
}

impl Command {
    /// How many points of the budget the entry takes.
    pub open spec fn cost(self) -> nat {
        match self {
            Command::Write(write) => write.points() as nat,
            _ => 0,
        }
    }

    /// How many places the entry takes.
    pub open spec fn places(self) -> nat {
        match self {
            Command::Shutdown => 0,
            _ => 1,
        }
    }
}

/// How many entries of a queue take a place.
pub open spec fn places_taken(queue: Seq<Command>) -> nat
    decreases queue.len(),
{
    if queue.len() == 0 {
        0
    } else {
        queue[0].places() + places_taken(queue.drop_first())
    }
}

/// How many points wait in a queue.
pub open spec fn points_waiting(queue: Seq<Command>) -> nat
    decreases queue.len(),
{
    if queue.len() == 0 {
        0
    } else {
        queue[0].cost() + points_waiting(queue.drop_first())
    }
}

proof fn lemma_push_counts(queue: Seq<Command>, command: Command)
    ensures
        places_taken(queue.push(command)) == places_taken(queue) + command.places(),
        points_waiting(queue.push(command)) == points_waiting(queue) + command.cost(),
    decreases queue.len(),
{
    let longer = queue.push(command);
    if queue.len() == 0 {
        assert(longer.drop_first() =~= queue);
        assert(places_taken(queue) == 0 && points_waiting(queue) == 0);
    } else {
        assert(longer.drop_first() =~= queue.drop_first().push(command));
        lemma_push_counts(queue.drop_first(), command);
    }
}

/// Why the writer makes no more storage calls.
#[derive(Debug, PartialEq, Eq)]
pub enum WorkerPoison {
    Error(String),
    Panic(String),
}

/// What poisoned the writer.
pub enum PoisonModel {
    Error(Seq<char>),
    Panic(Seq<char>),
}

pub open spec fn poison_of(poison: Option<WorkerPoison>) -> Option<PoisonModel> {
    match poison {
        None => None,
        Some(WorkerPoison::Error(cause)) => Some(PoisonModel::Error(cause@)),
        Some(WorkerPoison::Panic(cause)) => Some(PoisonModel::Panic(cause@)),
    }
}

/// What a runtime holds.
#[verifier::ext_equal]
pub struct RuntimeModel {
    pub queue_capacity: usize,
    pub max_queued_points: usize,
    pub usage: QueueUsage,
    /// What waits, the oldest first.
    pub queue: Seq<Command>,
    /// Whether a worker still takes entries out.
    pub receiving: bool,
    pub state: ShadowRuntimeState,
    pub accepted: u64,
    pub acknowledged: u64,
    pub failed: u64,
    pub source_watermarks: Map<u128, IngressWatermarks>,
    pub last_error: Option<Seq<char>>,
    pub store: StoreOpsSnapshot,
    pub poison: Option<PoisonModel>,
}

/// The queue holds what the counts say, and no more than the limits allow.
pub open spec fn sound(m: RuntimeModel) -> bool {
    &&& m.usage.queued == places_taken(m.queue)
    &&& m.usage.points == points_waiting(m.queue)
    &&& m.usage.queued <= m.queue_capacity
    &&& m.usage.points <= m.max_queued_points
}

/// A counter after one more event. It stops at the largest count.
pub open spec fn one_more(count: u64) -> u64 {
    if count == u64::MAX {
        u64::MAX
    } else {
        (count + 1) as u64
    }
}

/// What operators see of a runtime.
pub open spec fn health_of(m: RuntimeModel) -> HealthModel {
    HealthModel {
        state: m.state,
        queue_capacity: m.queue_capacity,
        max_queued_points: m.max_queued_points,
        queued: m.usage.queued,
        queued_points: m.usage.points,
        accepted: m.accepted,
        acknowledged: m.acknowledged,
        failed: m.failed,
        source_watermarks: m.source_watermarks,
        last_error: m.last_error,
        store: m.store,
    }
}

/// What becomes of an entry that a producer offers.
pub enum Admission {
    Accepted,
    Overloaded,
    PointBudgetExhausted,
    Closed,
    Poisoned(Seq<char>),
}

/// A runtime takes an entry while it runs, has room for it and has a worker.
pub open spec fn admission(m: RuntimeModel, points: usize) -> Admission {
    match m.state {
        ShadowRuntimeState::Poisoned => Admission::Poisoned(
            match m.last_error {
                Some(cause) => cause,
                None => "unknown writer failure"@,
            },
        ),
        ShadowRuntimeState::Closing => Admission::Closed,
        ShadowRuntimeState::Closed => Admission::Closed,
        ShadowRuntimeState::Running => match reservation_fault(
            m.usage,
            m.queue_capacity,
            m.max_queued_points,
            points,
        ) {
            Some(QueueReservationError::Entries) => Admission::Overloaded,
            Some(QueueReservationError::Points) => Admission::PointBudgetExhausted,
            None => if m.receiving {
                Admission::Accepted
            } else {
                Admission::Closed
            },
        },
    }
}

/// The runtime with one more entry behind the others.
pub open spec fn enqueued(m: RuntimeModel, command: Command) -> RuntimeModel {
    RuntimeModel {
        queue: m.queue.push(command),
        usage: QueueUsage {
            queued: (m.usage.queued + command.places()) as usize,
            points: (m.usage.points + command.cost()) as usize,
        },
        ..m
    }
}

/// The runtime after a write was offered.
pub open spec fn after_submit(m: RuntimeModel, write: ShadowWrite) -> RuntimeModel {
    if admission(m, write.points()) is Accepted {
        RuntimeModel { accepted: one_more(m.accepted), ..enqueued(m, Command::Write(write)) }
    } else {
        m
    }
}

/// Whether an error says that a write was refused as `admission` tells.
pub open spec fn refuses(error: SubmitError, write: ShadowWrite, admission: Admission) -> bool {
    &&& refused_write(error) == write
    &&& match admission {
        Admission::Accepted => false,
        Admission::Overloaded => error is Overloaded,
        Admission::PointBudgetExhausted => error is PointBudgetExhausted,
        Admission::Closed => error is Closed,
        Admission::Poisoned(text) => error matches SubmitError::Poisoned { cause, .. } && cause@
            == text,
    }
}

/// The runtime after a flush was offered. A flush is not counted as accepted.
pub open spec fn after_flush_submit(
    m: RuntimeModel,
    source_id: u128,
    through_sequence: u64,
) -> RuntimeModel {
    if admission(m, 0) is Accepted {
        enqueued(m, Command::Flush { source_id, through_sequence })
    } else {
        m
    }
}

/// Whether an error says that a flush was refused as `admission` tells.
pub open spec fn refuses_flush(error: FlushSubmitError, admission: Admission) -> bool {
    match admission {
        Admission::Accepted => false,
        Admission::Overloaded => error is Overloaded,
        Admission::PointBudgetExhausted => error is Overloaded,
        Admission::Closed => error is Closed,
        Admission::Poisoned(text) => error matches FlushSubmitError::Poisoned { cause } && cause@
            == text,
    }
}

/// The runtime after its worker took out the oldest entry. An entry that is being
/// worked on takes no room.
pub open spec fn after_take(m: RuntimeModel) -> RuntimeModel {
    if m.queue.len() == 0 {
        m
    } else {
        RuntimeModel {
            queue: m.queue.drop_first(),
            usage: QueueUsage {
                queued: (m.usage.queued - m.queue[0].places()) as usize,
                points: (m.usage.points - m.queue[0].cost()) as usize,
            },
            ..m
        }
    }
}

/// Errors after which the state of the log is unknown. Others reject one request.
pub open spec fn poisons(error: Error) -> bool {
    ||| error is Io
    ||| error is InvalidHeader
    ||| error is UnsupportedVersion
    ||| error is Corruption
    ||| error is Poisoned
    ||| error is SnapshotPublication
}

pub fn writer_error_requires_poison(error: &Error) -> (yes: bool)
    ensures
        yes == poisons(*error),
{
    match error {
        Error::Io(_) => true,
        Error::InvalidHeader => true,
        Error::UnsupportedVersion(_) => true,
        Error::Corruption { .. } => true,
        Error::Poisoned => true,
        Error::SnapshotPublication { .. } => true,
        _ => false,
    }
}

/// The runtime with one more failed operation.
pub open spec fn one_failed(m: RuntimeModel) -> RuntimeModel {
    RuntimeModel { failed: one_more(m.failed), ..m }
}

/// The runtime after storage failed for good.
pub open spec fn poisoned_by(m: RuntimeModel, poison: PoisonModel) -> RuntimeModel {
    let cause = match poison {
        PoisonModel::Error(cause) => cause,
        PoisonModel::Panic(cause) => cause,
    };
    RuntimeModel {
        state: ShadowRuntimeState::Poisoned,
        last_error: Some(cause),
        poison: Some(poison),
        ..m
    }
}

/// The runtime after it saw the watermarks of a source.
pub open spec fn observed(
    m: RuntimeModel,
    source_id: u128,
    watermarks: IngressWatermarks,
) -> RuntimeModel {
    RuntimeModel { source_watermarks: m.source_watermarks.insert(source_id, watermarks), ..m }
}

/// What is known of storage after an acknowledgement. Where storage could not say
/// how it is, the older numbers stay.
pub open spec fn refreshed(
    store: StoreOpsSnapshot,
    snapshot: Option<StoreOpsSnapshot>,
    last_ack_durable: bool,
) -> StoreOpsSnapshot {
    match snapshot {
        Some(fresh) => StoreOpsSnapshot { last_ack_durable, ..fresh },
        None => StoreOpsSnapshot { last_ack_durable, ..store },
    }
}

/// What storage did with a write.
#[allow(inconsistent_fields)]
#[derive(Debug, PartialEq, Eq)]
pub enum WriteOutcome {
    Committed {
        commit: Commit,
        watermarks: IngressWatermarks,
        snapshot: Option<StoreOpsSnapshot>,
    },
    Failed { error: Error, watermarks: IngressWatermarks },
    Panicked { cause: String },
}

/// The runtime after storage worked on a write.
pub open spec fn after_write(
    m: RuntimeModel,
    identity: IngressIdentity,
    outcome: WriteOutcome,
) -> RuntimeModel {
    match outcome {
        WriteOutcome::Committed { commit, watermarks, snapshot } => RuntimeModel {
            acknowledged: one_more(m.acknowledged),
            store: refreshed(m.store, snapshot, commit.durable),
            ..observed(m, identity.source_id, watermarks)
        },
        WriteOutcome::Failed { error, watermarks } => {
            let seen = one_failed(observed(m, identity.source_id, watermarks));
            if poisons(error) {
                poisoned_by(seen, PoisonModel::Error(error_text(error)))
            } else {
                seen
            }
        },
        WriteOutcome::Panicked { cause } => poisoned_by(
            one_failed(m),
            PoisonModel::Panic(cause@),
        ),
    }
}

/// What a producer is told of a write on which storage worked.
pub open spec fn write_reply(identity: IngressIdentity, outcome: WriteOutcome) -> Result<
    ShadowAck,
    ShadowWriteFailure,
> {
    match outcome {
        WriteOutcome::Committed { commit, watermarks, .. } => Ok(
            ShadowAck {
                identity,
                accepted_through: watermarks.accepted_through,
                durable_through: watermarks.durable_through,
                commit,
            },
        ),
        WriteOutcome::Failed { error, .. } => Err(
            if poisons(error) {
                ShadowWriteFailure::Writer(error)
            } else {
                ShadowWriteFailure::Rejected(error)
            },
        ),
        WriteOutcome::Panicked { cause } => Err(ShadowWriteFailure::WriterPanicked { cause }),
    }
}

/// What storage did with a flush.
#[allow(inconsistent_fields)]
#[derive(Debug, PartialEq, Eq)]
pub enum FlushOutcome {
    /// Storage flushed, and the watermarks of all its sources are these.
    Flushed {
        watermarks: BTreeMap<u128, IngressWatermarks>,
        snapshot: Option<StoreOpsSnapshot>,
    },
    Failed(Error),
    Panicked { cause: String },
}

/// The watermarks of a source. One that storage does not know has none.
pub open spec fn watermarks_of(
    all: Map<u128, IngressWatermarks>,
    source_id: u128,
) -> IngressWatermarks {
    if all.contains_key(source_id) {
        all[source_id]
    } else {
        IngressWatermarks { accepted_through: None, durable_through: None }
    }
}

/// The watermarks of the sources that were seen before, as storage has them now.
pub open spec fn refreshed_sources(
    seen: Map<u128, IngressWatermarks>,
    all: Map<u128, IngressWatermarks>,
) -> Map<u128, IngressWatermarks> {
    Map::new(|id: u128| seen.contains_key(id), |id: u128| watermarks_of(all, id))
}

/// Whether storage has accepted a source through a cursor.
pub open spec fn accepted_to(watermarks: IngressWatermarks, through_sequence: u64) -> bool {
    watermarks.accepted_through matches Some(accepted) && accepted >= through_sequence
}

/// The runtime after storage worked on a flush.
pub open spec fn after_flush(m: RuntimeModel, outcome: FlushOutcome) -> RuntimeModel {
    match outcome {
        FlushOutcome::Flushed { watermarks, snapshot } => RuntimeModel {
            source_watermarks: refreshed_sources(m.source_watermarks, watermarks@),
            store: refreshed(m.store, snapshot, true),
            ..m
        },
        FlushOutcome::Failed(error) => if poisons(error) {
            poisoned_by(one_failed(m), PoisonModel::Error(error_text(error)))
        } else {
            one_failed(m)
        },
        FlushOutcome::Panicked { cause } => poisoned_by(
            one_failed(m),
            PoisonModel::Panic(cause@),
        ),
    }
}

/// What a producer is told of a flush on which storage worked.
pub open spec fn flush_reply(
    source_id: u128,
    through_sequence: u64,
    outcome: FlushOutcome,
) -> Result<ShadowFlushAck, ShadowFlushFailure> {
    match outcome {
        FlushOutcome::Flushed { watermarks, .. } => {
            let now = watermarks_of(watermarks@, source_id);
            Ok(
                ShadowFlushAck {
                    source_id,
                    through_sequence,
                    accepted_through: now.accepted_through,
                    durable_through: now.durable_through,
                },
            )
        },
        FlushOutcome::Failed(error) => Err(
            if poisons(error) {
                ShadowFlushFailure::Writer(error)
            } else {
                ShadowFlushFailure::Rejected(error)
            },
        ),
        FlushOutcome::Panicked { cause } => Err(ShadowFlushFailure::WriterPanicked { cause }),
    }
}

/// What storage did when it was closed.
#[allow(inconsistent_fields)]
#[derive(Debug, PartialEq, Eq)]
pub enum CloseOutcome {
    Closed { watermarks: BTreeMap<u128, IngressWatermarks> },
    Failed(Error),
    Panicked { cause: String },
}

/// The runtime without a worker.
pub open spec fn stopped(m: RuntimeModel) -> RuntimeModel {
    RuntimeModel { state: ShadowRuntimeState::Closed, receiving: false, ..m }
}

/// The runtime after storage was closed.
pub open spec fn after_close(m: RuntimeModel, outcome: CloseOutcome) -> RuntimeModel {
    match outcome {
        CloseOutcome::Closed { watermarks } => RuntimeModel {
            source_watermarks: watermarks@,
            ..stopped(m)
        },
        CloseOutcome::Failed(error) => RuntimeModel {
            last_error: Some(error_text(error)),
            ..one_failed(stopped(m))
        },
        CloseOutcome::Panicked { cause } => RuntimeModel {
            last_error: Some(cause@),
            ..one_failed(stopped(m))
        },
    }
}

/// Why a runtime cannot start.
#[derive(Debug, PartialEq, Eq)]
pub enum ShadowStartError {
    ZeroQueueCapacity,
    ReadOnlyBackend,
    /// What the operating system said when the worker was to be started.
    Spawn(String),
}

impl ShadowStartError {
    pub fn message(&self) -> (text: String)
        ensures
            text@ == match *self {
                ShadowStartError::ZeroQueueCapacity => "shadow queue capacity must be positive"@,
                ShadowStartError::ReadOnlyBackend => "shadow writer requires writable storage"@,
                ShadowStartError::Spawn(error) => "could not start shadow writer: "@ + error@,
            },
    {
        match self {
            ShadowStartError::ZeroQueueCapacity =>
                "shadow queue capacity must be positive".to_owned(),
            ShadowStartError::ReadOnlyBackend => "shadow writer requires writable storage".to_owned(),
            ShadowStartError::Spawn(error) => joined(
                "could not start shadow writer: ",
                error.as_str(),
            ),
        }
    }
}

#[derive(Debug, PartialEq, Eq)]
pub struct ShutdownReport {
    pub health: ShadowHealth,
}

#[allow(inconsistent_fields)]
#[derive(Debug, PartialEq, Eq)]
pub enum ShutdownError {
    WriterPoisoned { cause: String, report: Box<ShutdownReport> },
    Close { error: Error, report: Box<ShutdownReport> },
    WriterPanicked { cause: String, report: Box<ShutdownReport> },
    WorkerPanicked { cause: String, report: Box<ShutdownReport> },
    WorkerStopped(Box<ShutdownReport>),
}

/// The report that a shutdown error carries.
pub open spec fn report_of(error: ShutdownError) -> ShutdownReport {
    match error {
        ShutdownError::WriterPoisoned { report, .. } => *report,
        ShutdownError::Close { report, .. } => *report,
        ShutdownError::WriterPanicked { report, .. } => *report,
        ShutdownError::WorkerPanicked { report, .. } => *report,
        ShutdownError::WorkerStopped(report) => *report,
    }
}

/// What a shutdown error says.
pub open spec fn shutdown_text(error: ShutdownError) -> Seq<char> {
    match error {
        ShutdownError::WriterPoisoned { cause, .. } =>
            "shadow writer closed after a write error: "@ + cause@,
        ShutdownError::Close { error, .. } => "shadow close failed: "@ + error_text(error),
        ShutdownError::WriterPanicked { cause, .. } => "shadow writer closed after a panic: "@
            + cause@,
        ShutdownError::WorkerPanicked { cause, .. } => "shadow worker panicked: "@ + cause@,
        ShutdownError::WorkerStopped(_) => "shadow worker stopped during shutdown"@,
    }
}

impl ShutdownError {
    pub fn report(&self) -> (report: &ShutdownReport)
        ensures
            *report == report_of(*self),
    {
        match self {
            ShutdownError::WriterPoisoned { report, .. } => report,
            ShutdownError::Close { report, .. } => report,
            ShutdownError::WriterPanicked { report, .. } => report,
            ShutdownError::WorkerPanicked { report, .. } => report,
            ShutdownError::WorkerStopped(report) => report,
        }
    }

    pub fn message(&self) -> (text: String)
        ensures
            text@ == shutdown_text(*self),
    {
        match self {
            ShutdownError::WriterPoisoned { cause, .. } => joined(
                "shadow writer closed after a write error: ",
                cause.as_str(),
            ),
            ShutdownError::Close { error, .. } => joined(
                "shadow close failed: ",
                error.message().as_str(),
            ),
            ShutdownError::WriterPanicked { cause, .. } => joined(
                "shadow writer closed after a panic: ",
                cause.as_str(),
            ),
            ShutdownError::WorkerPanicked { cause, .. } => joined(
                "shadow worker panicked: ",
                cause.as_str(),
            ),
            ShutdownError::WorkerStopped(_) => "shadow worker stopped during shutdown".to_owned(),
        }
    }
}

/// Whether the worker's answer to a close is what the outcome and the health then
/// ask for.
pub open spec fn close_reply(
    reply: Result<ShutdownReport, ShutdownError>,
    outcome: CloseOutcome,
    health: HealthModel,
) -> bool {
    match outcome {
        CloseOutcome::Closed { .. } => reply matches Ok(report) && report.health@ == health,
        CloseOutcome::Failed(failure) => reply matches Err(
            ShutdownError::Close { error, report },
        ) && error == failure && report.health@ == health,
        CloseOutcome::Panicked { cause } => reply matches Err(
            ShutdownError::WriterPanicked { cause: c, report },
        ) && c@ == cause@ && report.health@ == health,
    }
}

/// Puts together how a shutdown went: whether the request reached the worker's
/// queue, what its thread left behind when it was joined, and its answer.
pub fn shutdown_outcome(
    sent: bool,
    joined: Result<(), String>,
    reply: Option<Result<ShutdownReport, ShutdownError>>,
    health: ShadowHealth,
) -> (outcome: Result<ShutdownReport, ShutdownError>)
    ensures
        outcome == if !sent {
            Err(ShutdownError::WorkerStopped(Box::new(ShutdownReport { health })))
        } else {
            match joined {
                Err(cause) => Err(
                    ShutdownError::WorkerPanicked {
                        cause,
                        report: Box::new(ShutdownReport { health }),
                    },
                ),
                Ok(()) => match reply {
                    Some(result) => result,
                    None => Err(ShutdownError::WorkerStopped(Box::new(ShutdownReport { health }))),
                },
            }
        },
{
    if !sent {
        return Err(ShutdownError::WorkerStopped(Box::new(ShutdownReport { health })));
    }
    match joined {
        Err(cause) => Err(
            ShutdownError::WorkerPanicked { cause, report: Box::new(ShutdownReport { health }) },
        ),
        Ok(()) => match reply {
            Some(result) => result,
            None => Err(ShutdownError::WorkerStopped(Box::new(ShutdownReport { health }))),
        },
    }
}

/// The runtime after it was asked to close.
pub open spec fn after_shutdown_request(m: RuntimeModel) -> RuntimeModel {
    let closing = RuntimeModel {
        state: if m.state is Running {
            ShadowRuntimeState::Closing
        } else {
            m.state
        },
        ..m
    };
    if m.receiving {
        enqueued(closing, Command::Shutdown)
    } else {
        closing
    }
}

/// Why an entry does not get room.
enum Refusal {
    Entries,
    Points,
    Closed,
    Poisoned(String),
}

/// Whether a refusal says what `admission` tells.
spec fn tells(refusal: Refusal, admission: Admission) -> bool {
    match admission {
        Admission::Accepted => false,
        Admission::Overloaded => refusal is Entries,
        Admission::PointBudgetExhausted => refusal is Points,
        Admission::Closed => refusal is Closed,
        Admission::Poisoned(text) => refusal matches Refusal::Poisoned(cause) && cause@ == text,
    }
}

/// The watermarks of a source. One that storage does not know has none.
pub fn watermarks_in(all: &BTreeMap<u128, IngressWatermarks>, source_id: u128) -> (watermarks:
    IngressWatermarks)
    ensures
        watermarks == watermarks_of(all@, source_id),
{
    broadcast use group_btree_axioms;

    match all.get(&source_id) {
        Some(watermarks) => *watermarks,
        None => IngressWatermarks { accepted_through: None, durable_through: None },
    }
}

/// The state that producers and the worker share. Producers offer writes and
/// flushes; the worker takes them out in order and reports what storage did.
pub struct ShadowSubmitter {
    queue_capacity: usize,
    max_queued_points: usize,
    usage: QueueUsage,
    queue: VecDeque<Command>,
    receiving: bool,
    state: ShadowRuntimeState,
    accepted: u64,
    acknowledged: u64,
    failed: u64,
    source_watermarks: BTreeMap<u128, IngressWatermarks>,
    last_error: Option<String>,
    store: StoreOpsSnapshot,
    poison: Option<WorkerPoison>,
}

impl View for ShadowSubmitter {
    type V = RuntimeModel;

    closed spec fn view(&self) -> RuntimeModel {
        RuntimeModel {
            queue_capacity: self.queue_capacity,
            max_queued_points: self.max_queued_points,
            usage: self.usage,
            queue: self.queue@,
            receiving: self.receiving,
            state: self.state,
            accepted: self.accepted,
            acknowledged: self.acknowledged,
            failed: self.failed,
            source_watermarks: self.source_watermarks@,
            last_error: optional_text(self.last_error),
            store: self.store,
            poison: poison_of(self.poison),
        }
    }
}

impl ShadowSubmitter {
    /// A running runtime over storage with these watermarks and numbers.
    pub fn start(
        read_only: bool,
        config: &ShadowRuntimeConfig,
        source_watermarks: BTreeMap<u128, IngressWatermarks>,
        store: StoreOpsSnapshot,
    ) -> (outcome: Result<Self, ShadowStartError>)
        ensures
            match outcome {
                Err(error) => if read_only {
                    error is ReadOnlyBackend
                } else {
                    error is ZeroQueueCapacity && config.queue_capacity == 0
                },
                Ok(runtime) => {
                    &&& !read_only && config.queue_capacity > 0
                    &&& sound(runtime@)
                    &&& runtime@ == (RuntimeModel {
                        queue_capacity: config.queue_capacity,
                        max_queued_points: config.max_queued_points,
                        usage: QueueUsage { queued: 0, points: 0 },
                        queue: Seq::empty(),
                        receiving: true,
                        state: ShadowRuntimeState::Running,
                        accepted: 0,
                        acknowledged: 0,
                        failed: 0,
                        source_watermarks: source_watermarks@,
                        last_error: None,
                        store,
                        poison: None,
                    })
                },
            },
    {
        if read_only {
            return Err(ShadowStartError::ReadOnlyBackend);
        }
        if config.queue_capacity == 0 {
            return Err(ShadowStartError::ZeroQueueCapacity);
        }
        let runtime = ShadowSubmitter {
            queue_capacity: config.queue_capacity,
            max_queued_points: config.max_queued_points,
            usage: QueueUsage { queued: 0, points: 0 },
            queue: VecDeque::new(),
            receiving: true,
            state: ShadowRuntimeState::Running,
            accepted: 0,
            acknowledged: 0,
            failed: 0,
            source_watermarks,
            last_error: None,
            store,
            poison: None,
        };
        assert(runtime@.queue =~= Seq::<Command>::empty());
        Ok(runtime)
    }

    /// Takes room for an entry, or says why there is none.
    fn take_room(&mut self, points: usize) -> (outcome: Result<(), Refusal>)
        requires
            sound(old(self)@),
        ensures
            match outcome {
                Ok(()) => {
                    &&& admission(old(self)@, points) is Accepted
                    &&& final(self)@ == (RuntimeModel {
                        usage: QueueUsage {
                            queued: (old(self)@.usage.queued + 1) as usize,
                            points: (old(self)@.usage.points + points) as usize,
                        },
                        ..old(self)@
                    })
                },
                Err(refusal) => {
                    &&& tells(refusal, admission(old(self)@, points))
                    &&& final(self)@ == old(self)@
                },
            },
    {
        match self.state {
            ShadowRuntimeState::Running => {},
            ShadowRuntimeState::Poisoned => {
                let cause = match &self.last_error {
                    Some(cause) => cause.clone(),
                    None => "unknown writer failure".to_owned(),
                };
                return Err(Refusal::Poisoned(cause));
            },
            ShadowRuntimeState::Closing => {
                return Err(Refusal::Closed);
            },
            ShadowRuntimeState::Closed => {
                return Err(Refusal::Closed);
            },
        }
        match self.usage.reserve(self.queue_capacity, self.max_queued_points, points) {
            Ok(()) => {},
            Err(QueueReservationError::Entries) => {
                return Err(Refusal::Entries);
            },
            Err(QueueReservationError::Points) => {
                return Err(Refusal::Points);
            },
        }
        if !self.receiving {
            self.usage.release(points);
            return Err(Refusal::Closed);
        }
        Ok(())
    }

    /// Tries once without waiting for queue space.
    pub fn try_submit(&mut self, write: ShadowWrite) -> (outcome: Result<
        ShadowReceipt,
        SubmitError,
    >)
        requires
            sound(old(self)@),
        ensures
            sound(final(self)@),
            final(self)@ == after_submit(old(self)@, write),
            match outcome {
                Ok(receipt) => admission(old(self)@, write.points()) is Accepted
                    && receipt.identity == write.ingress(),
                Err(error) => refuses(error, write, admission(old(self)@, write.points())),
            },
    {
        let points: usize = write.transaction.point_count();
        match self.take_room(points) {
            Ok(()) => {},
            Err(Refusal::Entries) => {
                return Err(SubmitError::Overloaded(Box::new(write)));
            },
            Err(Refusal::Points) => {
                return Err(SubmitError::PointBudgetExhausted(Box::new(write)));
            },
            Err(Refusal::Closed) => {
                return Err(SubmitError::Closed(Box::new(write)));
            },
            Err(Refusal::Poisoned(cause)) => {
                return Err(SubmitError::Poisoned { write: Box::new(write), cause });
            },
        }
        let identity = write.identity;
        self.accepted = self.accepted.saturating_add(1);
        proof {
            lemma_push_counts(self.queue@, Command::Write(write));
        }
        self.queue.push_back(Command::Write(write));
        assert(self@ =~= after_submit(old(self)@, write));
        Ok(ShadowReceipt { identity })
    }

    /// Places a flush after all operations already accepted into the queue.
    pub fn try_flush(&mut self, source_id: u128, through_sequence: u64) -> (outcome: Result<
        ShadowFlushReceipt,
        FlushSubmitError,
    >)
        requires
            sound(old(self)@),
        ensures
            sound(final(self)@),
            final(self)@ == after_flush_submit(old(self)@, source_id, through_sequence),
            match outcome {
                Ok(_) => admission(old(self)@, 0) is Accepted,
                Err(error) => refuses_flush(error, admission(old(self)@, 0)),
            },
    {
        match self.take_room(0) {
            Ok(()) => {},
            Err(Refusal::Entries) => {
                return Err(FlushSubmitError::Overloaded);
            },
            Err(Refusal::Points) => {
                return Err(FlushSubmitError::Overloaded);
            },
            Err(Refusal::Closed) => {
                return Err(FlushSubmitError::Closed);
            },
            Err(Refusal::Poisoned(cause)) => {
                return Err(FlushSubmitError::Poisoned { cause });
            },
        }
        let ghost command = Command::Flush { source_id, through_sequence };
        proof {
            lemma_push_counts(self.queue@, command);
        }
        self.queue.push_back(Command::Flush { source_id, through_sequence });
        assert(self@ =~= after_flush_submit(old(self)@, source_id, through_sequence));
        Ok(ShadowFlushReceipt {  })
    }

    pub fn health(&self) -> (health: ShadowHealth)
        ensures
            health@ == health_of(self@),
    {
        let last_error = match &self.last_error {
            Some(cause) => Some(cause.clone()),
            None => None,
        };
        ShadowHealth {
            state: self.state,
            queue_capacity: self.queue_capacity,
            max_queued_points: self.max_queued_points,
            queued: self.usage.queued,
            queued_points: self.usage.points,
            accepted: self.accepted,
            acknowledged: self.acknowledged,
            failed: self.failed,
            source_watermarks: self.source_watermarks.clone(),
            last_error,
            database_bytes: self.store.bytes,
            database_points: self.store.points,
            database_commits: self.store.commits,
            recovered_tail_bytes: self.store.recovered_tail_bytes,
            durability: self.store.durability,
            last_ack_durable: self.store.last_ack_durable,
        }
    }

    /// Asks the worker to close. What was accepted before is still worked on, and
    /// nothing is accepted any more. Says whether there is a worker to ask.
    pub fn begin_shutdown(&mut self) -> (sent: bool)
        requires
            sound(old(self)@),
        ensures
            sound(final(self)@),
            sent == old(self)@.receiving,
            final(self)@ == after_shutdown_request(old(self)@),
    {
        if self.state == ShadowRuntimeState::Running {
            self.state = ShadowRuntimeState::Closing;
        }
        if !self.receiving {
            return false;
        }
        proof {
            lemma_push_counts(self.queue@, Command::Shutdown);
        }
        self.queue.push_back(Command::Shutdown);
        assert(self@ =~= after_shutdown_request(old(self)@));
        true
    }

    /// Takes out the oldest entry for the worker, and gives back its room.
    pub fn next_command(&mut self) -> (command: Option<Command>)
        requires
            sound(old(self)@),
        ensures
            sound(final(self)@),
            final(self)@ == after_take(old(self)@),
            command == if old(self)@.queue.len() == 0 {
                None
            } else {
                Some(old(self)@.queue[0])
            },
    {
        match self.queue.pop_front() {
            None => {
                assert(self@ =~= old(self)@);
                None
            },
            Some(command) => {
                assert(self.queue@ =~= old(self)@.queue.drop_first());
                match &command {
                    Command::Write(write) => {
                        let points: usize = write.transaction.point_count();
                        self.usage.release(points);
                    },
                    Command::Flush { .. } => {
                        self.usage.release(0);
                    },
                    Command::Shutdown => {},
                }
                assert(self@ =~= after_take(old(self)@));
                Some(command)
            },
        }
    }

    /// The worker ended without being asked to close.
    pub fn worker_ended(&mut self)
        requires
            sound(old(self)@),
        ensures
            sound(final(self)@),
            final(self)@ == stopped(old(self)@),
    {
        self.state = ShadowRuntimeState::Closed;
        self.receiving = false;
    }

    fn count_failure(&mut self)
        ensures
            final(self)@ == one_failed(old(self)@),
    {
        self.failed = self.failed.saturating_add(1);
    }

    fn poison_with_error(&mut self, error: &Error)
        ensures
            final(self)@ == poisoned_by(old(self)@, PoisonModel::Error(error_text(*error))),
    {
        let cause = error.message();
        self.poison = Some(WorkerPoison::Error(cause.clone()));
        self.state = ShadowRuntimeState::Poisoned;
        self.last_error = Some(cause);
    }

    fn poison_with_panic(&mut self, cause: &String)
        ensures
            final(self)@ == poisoned_by(old(self)@, PoisonModel::Panic(cause@)),
    {
        self.poison = Some(WorkerPoison::Panic(cause.clone()));
        self.state = ShadowRuntimeState::Poisoned;
        self.last_error = Some(cause.clone());
    }

    fn observe_source(&mut self, source_id: u128, watermarks: IngressWatermarks)
        ensures
            final(self)@ == observed(old(self)@, source_id, watermarks),
    {
        broadcast use group_btree_axioms;

        self.source_watermarks.insert(source_id, watermarks);
    }

    fn refresh_store_snapshot(
        &mut self,
        snapshot: Option<StoreOpsSnapshot>,
        last_ack_durable: bool,
    )
        ensures
            final(self)@ == (RuntimeModel {
                store: refreshed(old(self)@.store, snapshot, last_ack_durable),
                ..old(self)@
            }),
    {
        match snapshot {
            Some(fresh) => {
                self.store = StoreOpsSnapshot { last_ack_durable, ..fresh };
            },
            None => {
                self.store = StoreOpsSnapshot { last_ack_durable, ..self.store };
            },
        }
    }

    /// The storage call for a write, unless the writer is poisoned.
    pub fn begin_write(&mut self, write: ShadowWrite) -> (outcome: Result<
        (IngressIdentity, Transaction),
        ShadowWriteFailure,
    >)
        requires
            sound(old(self)@),
        ensures
            sound(final(self)@),
            match old(self)@.poison {
                None => {
                    &&& outcome == Ok::<_, ShadowWriteFailure>((write.ingress(), write.content()))
                    &&& write.named()
                    &&& final(self)@ == old(self)@
                },
                Some(PoisonModel::Error(text)) => {
                    &&& outcome matches Err(ShadowWriteFailure::Poisoned { cause }) && cause@ == text
                    &&& final(self)@ == one_failed(old(self)@)
                },
                Some(PoisonModel::Panic(text)) => {
                    &&& outcome matches Err(ShadowWriteFailure::WriterPanicked { cause }) && cause@
                        == text
                    &&& final(self)@ == one_failed(old(self)@)
                },
            },
    {
        let failure = match &self.poison {
            None => {
                proof {
                    use_type_invariant(&write);
                }
                return Ok((write.identity, write.transaction));
            },
            Some(WorkerPoison::Error(cause)) => ShadowWriteFailure::Poisoned {
                cause: cause.clone(),
            },
            Some(WorkerPoison::Panic(cause)) => ShadowWriteFailure::WriterPanicked {
                cause: cause.clone(),
            },
        };
        self.count_failure();
        Err(failure)
    }

    /// Takes in what storage did with a write, and gives the producer's answer.
    pub fn finish_write(&mut self, identity: IngressIdentity, outcome: WriteOutcome) -> (reply:
        Result<ShadowAck, ShadowWriteFailure>)
        requires
            sound(old(self)@),
        ensures
            sound(final(self)@),
            final(self)@ == after_write(old(self)@, identity, outcome),
            reply == write_reply(identity, outcome),
    {
        match outcome {
            WriteOutcome::Committed { commit, watermarks, snapshot } => {
                self.observe_source(identity.source_id, watermarks);
                self.refresh_store_snapshot(snapshot, commit.durable);
                self.acknowledged = self.acknowledged.saturating_add(1);
                Ok(
                    ShadowAck {
                        identity,
                        accepted_through: watermarks.accepted_through,
                        durable_through: watermarks.durable_through,
                        commit,
                    },
                )
            },
            WriteOutcome::Failed { error, watermarks } => {
                self.observe_source(identity.source_id, watermarks);
                self.count_failure();
                if !writer_error_requires_poison(&error) {
                    return Err(ShadowWriteFailure::Rejected(error));
                }
                self.poison_with_error(&error);
                Err(ShadowWriteFailure::Writer(error))
            },
            WriteOutcome::Panicked { cause } => {
                self.count_failure();
                self.poison_with_panic(&cause);
                Err(ShadowWriteFailure::WriterPanicked { cause })
            },
        }
    }

    /// Refuses a flush where storage can no longer be used, before storage is asked
    /// anything.
    pub fn check_flush(&mut self) -> (outcome: Result<(), ShadowFlushFailure>)
        requires
            sound(old(self)@),
        ensures
            sound(final(self)@),
            match old(self)@.poison {
                None => {
                    &&& outcome is Ok
                    &&& final(self)@ == old(self)@
                },
                Some(PoisonModel::Error(text)) => {
                    &&& outcome matches Err(ShadowFlushFailure::Poisoned { cause }) && cause@ == text
                    &&& final(self)@ == one_failed(old(self)@)
                },
                Some(PoisonModel::Panic(text)) => {
                    &&& outcome matches Err(ShadowFlushFailure::WriterPanicked { cause }) && cause@
                        == text
                    &&& final(self)@ == one_failed(old(self)@)
                },
            },
    {
        let failure = match &self.poison {
            None => {
                return Ok(());
            },
            Some(WorkerPoison::Error(cause)) => ShadowFlushFailure::Poisoned {
                cause: cause.clone(),
            },
            Some(WorkerPoison::Panic(cause)) => ShadowFlushFailure::WriterPanicked {
                cause: cause.clone(),
            },
        };
        self.count_failure();
        Err(failure)
    }

    /// Whether storage is asked to flush for a source whose watermarks are these. A
    /// poisoned writer makes no storage call, and no cursor is flushed that was not
    /// accepted.
    pub fn begin_flush(
        &mut self,
        source_id: u128,
        through_sequence: u64,
        watermarks: IngressWatermarks,
    ) -> (outcome: Result<(), ShadowFlushFailure>)
        requires
            sound(old(self)@),
        ensures
            sound(final(self)@),
            match old(self)@.poison {
                None => if accepted_to(watermarks, through_sequence) {
                    &&& outcome is Ok
                    &&& final(self)@ == observed(old(self)@, source_id, watermarks)
                } else {
                    &&& outcome == Err::<(), _>(
                        ShadowFlushFailure::NotAccepted {
                            source_id,
                            through_sequence,
                            accepted_through: watermarks.accepted_through,
                        },
                    )
                    &&& final(self)@ == one_failed(observed(old(self)@, source_id, watermarks))
                },
                Some(PoisonModel::Error(text)) => {
                    &&& outcome matches Err(ShadowFlushFailure::Poisoned { cause }) && cause@ == text
                    &&& final(self)@ == one_failed(old(self)@)
                },
                Some(PoisonModel::Panic(text)) => {
                    &&& outcome matches Err(ShadowFlushFailure::WriterPanicked { cause }) && cause@
                        == text
                    &&& final(self)@ == one_failed(old(self)@)
                },
            },
    {
        self.check_flush()?;
        self.observe_source(source_id, watermarks);
        let accepted = match watermarks.accepted_through {
            None => false,
            Some(accepted) => accepted >= through_sequence,
        };
        if !accepted {
            self.count_failure();
            return Err(
                ShadowFlushFailure::NotAccepted {
                    source_id,
                    through_sequence,
                    accepted_through: watermarks.accepted_through,
                },
            );
        }
        Ok(())
    }

    /// Reads the watermarks of every source seen so far again.
    fn refresh_sources(&mut self, all: &BTreeMap<u128, IngressWatermarks>)
        ensures
            final(self)@ == (RuntimeModel {
                source_watermarks: refreshed_sources(old(self)@.source_watermarks, all@),
                ..old(self)@
            }),
    {
        broadcast use group_btree_axioms;

        let ghost seen = self.source_watermarks@;
        let keys = u128_keys(&self.source_watermarks);
        let mut fresh: BTreeMap<u128, IngressWatermarks> = BTreeMap::new();
        let mut i: usize = 0;
        while i < keys.len()
            invariant
                i <= keys@.len(),
                forall|id: u128| #[trigger]
                    fresh@.contains_key(id) <==> keys@.take(i as int).contains(id),
                forall|id: u128| #[trigger]
                    fresh@.contains_key(id) ==> fresh@[id] == watermarks_of(all@, id),
            decreases keys@.len() - i,
        {
            let id: u128 = keys[i];
            let watermarks = watermarks_in(all, id);
            let ghost before = keys@.take(i as int);
            fresh.insert(id, watermarks);
            i = i + 1;
            proof {
                assert(keys@.take(i as int) =~= before.push(id));
                assert forall|k: u128| #[trigger] fresh@.contains_key(k) implies keys@.take(
                    i as int,
                ).contains(k) by {
                    if k == id {
                        assert(before.push(id)[before.len() as int] == id);
                    } else {
                        let j = choose|j: int| 0 <= j < before.len() && before[j] == k;
                        assert(before.push(id)[j] == k);
                    }
                }
                assert forall|k: u128| keys@.take(i as int).contains(
                    k,
                ) implies #[trigger] fresh@.contains_key(k) by {
                    let j = choose|j: int|
                        0 <= j < keys@.take(i as int).len() && keys@.take(i as int)[j] == k;
                    if j < before.len() {
                        assert(before[j] == k);
                    }
                }
            }
        }
        proof {
            assert(keys@.take(keys@.len() as int) =~= keys@);
            assert forall|id: u128| seen.contains_key(id) <==> #[trigger] fresh@.contains_key(
                id,
            ) by {
                assert(keys@.contains(id) <==> seen.contains_key(id));
            }
            assert(fresh@ =~= refreshed_sources(seen, all@));
        }
        self.source_watermarks = fresh;
    }

    /// Takes in what storage did with a flush, and gives the producer's answer.
    pub fn finish_flush(
        &mut self,
        source_id: u128,
        through_sequence: u64,
        outcome: FlushOutcome,
    ) -> (reply: Result<ShadowFlushAck, ShadowFlushFailure>)
        requires
            sound(old(self)@),
        ensures
            sound(final(self)@),
            final(self)@ == after_flush(old(self)@, outcome),
            reply == flush_reply(source_id, through_sequence, outcome),
    {
        match outcome {
            FlushOutcome::Flushed { watermarks, snapshot } => {
                self.refresh_sources(&watermarks);
                self.refresh_store_snapshot(snapshot, true);
                let now = watermarks_in(&watermarks, source_id);
                Ok(
                    ShadowFlushAck {
                        source_id,
                        through_sequence,
                        accepted_through: now.accepted_through,
                        durable_through: now.durable_through,
                    },
                )
            },
            FlushOutcome::Failed(error) => {
                self.count_failure();
                if !writer_error_requires_poison(&error) {
                    return Err(ShadowFlushFailure::Rejected(error));
                }
                self.poison_with_error(&error);
                Err(ShadowFlushFailure::Writer(error))
            },
            FlushOutcome::Panicked { cause } => {
                self.count_failure();
                self.poison_with_panic(&cause);
                Err(ShadowFlushFailure::WriterPanicked { cause })
            },
        }
    }

    /// Takes in how background maintenance went. Says whether the run counts, so
    /// that the next one is due an interval later. Only a fatal error does not
    /// count, and it poisons the writer.
    pub fn finish_maintenance(&mut self, outcome: Result<(), Error>) -> (ran: bool)
        requires
            sound(old(self)@),
        ensures
            sound(final(self)@),
            match outcome {
                Ok(()) => ran && final(self)@ == old(self)@,
                Err(error) => if poisons(error) {
                    &&& !ran
                    &&& final(self)@ == poisoned_by(
                        old(self)@,
                        PoisonModel::Error(error_text(error)),
                    )
                } else {
                    ran && final(self)@ == old(self)@
                },
            },
    {
        match outcome {
            Ok(()) => true,
            Err(error) => {
                if writer_error_requires_poison(&error) {
                    self.poison_with_error(&error);
                    false
                } else {
                    true
                }
            },
        }
    }

    /// Closes a poisoned writer, which makes no storage call. `None` where storage
    /// is to be closed.
    pub fn begin_close(&mut self) -> (refusal: Option<ShutdownError>)
        requires
            sound(old(self)@),
        ensures
            sound(final(self)@),
            match old(self)@.poison {
                None => refusal is None && final(self)@ == old(self)@,
                Some(PoisonModel::Error(text)) => {
                    &&& final(self)@ == stopped(old(self)@)
                    &&& refusal matches Some(ShutdownError::WriterPoisoned { cause, report })
                        && cause@ == text && report.health@ == health_of(final(self)@)
                },
                Some(PoisonModel::Panic(text)) => {
                    &&& final(self)@ == stopped(old(self)@)
                    &&& refusal matches Some(ShutdownError::WriterPanicked { cause, report })
                        && cause@ == text && report.health@ == health_of(final(self)@)
                },
            },
    {
        if self.poison.is_none() {
            return None;
        }
        self.state = ShadowRuntimeState::Closed;
        self.receiving = false;
        let report = Box::new(ShutdownReport { health: self.health() });
        match &self.poison {
            None => None,
            Some(WorkerPoison::Error(cause)) => Some(
                ShutdownError::WriterPoisoned { cause: cause.clone(), report },
            ),
            Some(WorkerPoison::Panic(cause)) => Some(
                ShutdownError::WriterPanicked { cause: cause.clone(), report },
            ),
        }
    }

    /// Takes in how storage was closed.
    pub fn finish_close(&mut self, outcome: CloseOutcome) -> (reply: Result<
        ShutdownReport,
        ShutdownError,
    >)
        requires
            sound(old(self)@),
        ensures
            sound(final(self)@),
            final(self)@ == after_close(old(self)@, outcome),
            close_reply(reply, outcome, health_of(final(self)@)),
    {
        self.state = ShadowRuntimeState::Closed;
        self.receiving = false;
        match outcome {
            CloseOutcome::Closed { watermarks } => {
                self.source_watermarks = watermarks;
                Ok(ShutdownReport { health: self.health() })
            },
            CloseOutcome::Failed(error) => {
                self.count_failure();
                self.last_error = Some(error.message());
                let report = Box::new(ShutdownReport { health: self.health() });
                Err(ShutdownError::Close { error, report })
            },
            CloseOutcome::Panicked { cause } => {
                self.count_failure();
                self.last_error = Some(cause.clone());
                let report = Box::new(ShutdownReport { health: self.health() });
                Err(ShutdownError::WriterPanicked { cause, report })
            },
        }
    }
}

/// Nothing that producers or the worker do breaks the limits of the queue or parts
/// its counts from what waits in it.
pub proof fn operations_keep_the_limits(
    m: RuntimeModel,
    write: ShadowWrite,
    source_id: u128,
    through_sequence: u64,
    identity: IngressIdentity,
    written: WriteOutcome,
    flushed: FlushOutcome,
    closed: CloseOutcome,
)
    requires
        sound(m),
    ensures
        sound(after_submit(m, write)),
        sound(after_flush_submit(m, source_id, through_sequence)),
        sound(after_shutdown_request(m)),
        sound(after_take(m)),
        sound(after_write(m, identity, written)),
        sound(after_flush(m, flushed)),
        sound(after_close(m, closed)),
{
    lemma_push_counts(m.queue, Command::Write(write));
    lemma_push_counts(m.queue, Command::Flush { source_id, through_sequence });
    lemma_push_counts(m.queue, Command::Shutdown);
}

/// A producer whose entry is refused finds the runtime as it was.
pub proof fn refused_entries_change_nothing(
    m: RuntimeModel,
    write: ShadowWrite,
    source_id: u128,
    through_sequence: u64,
)
    ensures
        !(admission(m, write.points()) is Accepted) ==> after_submit(m, write) == m,
        !(admission(m, 0) is Accepted) ==> after_flush_submit(m, source_id, through_sequence) == m,
{
}

/// The runtime after its worker took out `n` entries.
pub open spec fn after_takes(m: RuntimeModel, n: nat) -> RuntimeModel
    decreases n,
{
    if n == 0 {
        m
    } else {
        after_takes(after_take(m), (n - 1) as nat)
    }
}

proof fn lemma_takes_drop(m: RuntimeModel, n: nat)
    requires
        n <= m.queue.len(),
    ensures
        after_takes(m, n).queue == m.queue.skip(n as int),
    decreases n,
{
    if n == 0 {
        assert(m.queue.skip(0) =~= m.queue);
    } else {
        lemma_takes_drop(after_take(m), (n - 1) as nat);
        assert(m.queue.drop_first().skip(n - 1) =~= m.queue.skip(n as int));
    }
}

/// Entries leave in the order in which they came: an accepted write is the next one
/// as soon as the worker has taken out all that waited before it.
pub proof fn entries_leave_in_order(m: RuntimeModel, write: ShadowWrite)
    requires
        admission(m, write.points()) is Accepted,
    ensures
        ({
            let waited = after_takes(after_submit(m, write), m.queue.len());
            waited.queue == seq![Command::Write(write)]
        }),
        forall|n: nat|
            n < m.queue.len() ==> (#[trigger] after_takes(after_submit(m, write), n)).queue[0]
                == m.queue[n as int],
{
    let after = after_submit(m, write);
    lemma_takes_drop(after, m.queue.len());
    assert(after.queue.skip(m.queue.len() as int) =~= seq![Command::Write(write)]);
    assert forall|n: nat| n < m.queue.len() implies (#[trigger] after_takes(after, n)).queue[0]
        == m.queue[n as int] by {
        lemma_takes_drop(after, n);
    }
}

/// What happens to a runtime: a producer offers a write or a flush, or the worker takes
/// the oldest entry and storage does with it as told. Before it flushes, storage tells
/// the watermarks of the source.
pub enum RuntimeEvent {
    Offer(ShadowWrite),
    OfferFlush { source_id: u128, through_sequence: u64 },
    Serve(WriteOutcome),
    ServeFlush(IngressWatermarks, FlushOutcome),
}

/// A run of a runtime: the writes it accepted, in order, what was handed to storage, what
/// storage did, and what the receipts say.
pub struct ServiceRun {
    pub runtime: RuntimeModel,
    pub accepted: Seq<ShadowWrite>,
    pub handed: Seq<(IngressIdentity, Transaction)>,
    pub outcomes: Seq<WriteOutcome>,
    pub replies: Seq<Result<ShadowAck, ShadowWriteFailure>>,
}

/// The runtime after its worker has worked on a flush. Storage is not asked to flush
/// what it has not accepted.
pub open spec fn after_flush_work(
    m: RuntimeModel,
    source_id: u128,
    through_sequence: u64,
    watermarks: IngressWatermarks,
    outcome: FlushOutcome,
) -> RuntimeModel {
    if accepted_to(watermarks, through_sequence) {
        after_flush(observed(m, source_id, watermarks), outcome)
    } else {
        one_failed(observed(m, source_id, watermarks))
    }
}

/// A run after one more event. A worker waits while the oldest entry is not of the kind
/// that it is told of.
pub open spec fn after_event(run: ServiceRun, event: RuntimeEvent) -> ServiceRun {
    match event {
        RuntimeEvent::Offer(write) => ServiceRun {
            runtime: after_submit(run.runtime, write),
            accepted: if admission(run.runtime, write.points()) is Accepted {
                run.accepted.push(write)
            } else {
                run.accepted
            },
            ..run
        },
        RuntimeEvent::OfferFlush { source_id, through_sequence } => ServiceRun {
            runtime: after_flush_submit(run.runtime, source_id, through_sequence),
            ..run
        },
        RuntimeEvent::Serve(outcome) => if run.runtime.queue.len() > 0 {
            match run.runtime.queue[0] {
                Command::Write(write) => ServiceRun {
                    runtime: after_write(after_take(run.runtime), write.ingress(), outcome),
                    handed: run.handed.push((write.ingress(), write.content())),
                    outcomes: run.outcomes.push(outcome),
                    replies: run.replies.push(write_reply(write.ingress(), outcome)),
                    ..run
                },
                _ => run,
            }
        } else {
            run
        },
        RuntimeEvent::ServeFlush(watermarks, outcome) => if run.runtime.queue.len() > 0 {
            match run.runtime.queue[0] {
                Command::Flush { source_id, through_sequence } => ServiceRun {
                    runtime: after_flush_work(
                        after_take(run.runtime),
                        source_id,
                        through_sequence,
                        watermarks,
                        outcome,
                    ),
                    ..run
                },
                _ => run,
            }
        } else {
            run
        },
    }
}

pub open spec fn after_events(run: ServiceRun, events: Seq<RuntimeEvent>) -> ServiceRun
    decreases events.len(),
{
    if events.len() == 0 {
        run
    } else {
        after_event(after_events(run, events.drop_last()), events.last())
    }
}

/// A run at its start.
pub open spec fn fresh_run(m: RuntimeModel) -> ServiceRun {
    ServiceRun {
        runtime: m,
        accepted: Seq::empty(),
        handed: Seq::empty(),
        outcomes: Seq::empty(),
        replies: Seq::empty(),
    }
}

/// Whether storage stays usable behind an event: what it did not carry out it rejected.
pub open spec fn stays_usable(event: RuntimeEvent) -> bool {
    match event {
        RuntimeEvent::Serve(WriteOutcome::Failed { error, .. }) => !poisons(error),
        RuntimeEvent::Serve(WriteOutcome::Panicked { .. }) => false,
        RuntimeEvent::ServeFlush(_, FlushOutcome::Failed(error)) => !poisons(error),
        RuntimeEvent::ServeFlush(_, FlushOutcome::Panicked { .. }) => false,
        _ => true,
    }
}

/// The writes among the entries of a queue.
pub open spec fn waiting_writes(queue: Seq<Command>) -> Seq<ShadowWrite>
    decreases queue.len(),
{
    if queue.len() == 0 {
        Seq::empty()
    } else {
        let before = waiting_writes(queue.drop_last());
        match queue.last() {
            Command::Write(write) => before.push(write),
            _ => before,
        }
    }
}

proof fn lemma_waiting_push(queue: Seq<Command>, entry: Command)
    ensures
        waiting_writes(queue.push(entry)) == match entry {
            Command::Write(write) => waiting_writes(queue).push(write),
            _ => waiting_writes(queue),
        },
{
    assert(queue.push(entry).drop_last() =~= queue);
}

proof fn lemma_waiting_first(queue: Seq<Command>)
    requires
        queue.len() > 0,
    ensures
        waiting_writes(queue) == match queue[0] {
            Command::Write(write) => seq![write] + waiting_writes(queue.drop_first()),
            _ => waiting_writes(queue.drop_first()),
        },
    decreases queue.len(),
{
    let rest = queue.drop_first();
    if queue.len() == 1 {
        assert(queue.drop_last() =~= Seq::<Command>::empty());
        assert(rest =~= Seq::<Command>::empty());
        assert(waiting_writes(queue.drop_last()) =~= Seq::<ShadowWrite>::empty());
        assert(waiting_writes(queue) =~= match queue[0] {
            Command::Write(write) => seq![write] + waiting_writes(rest),
            _ => waiting_writes(rest),
        });
    } else {
        let front = queue.drop_last();
        lemma_waiting_first(front);
        assert(front.drop_first() =~= rest.drop_last());
        assert(front[0] == queue[0]);
        assert(rest.last() == queue.last());
        assert(waiting_writes(queue) =~= match queue[0] {
            Command::Write(write) => seq![write] + waiting_writes(rest),
            _ => waiting_writes(rest),
        });
    }
}

/// Whether a receipt acknowledges a write with what storage answered.
pub open spec fn acknowledges(
    reply: Result<ShadowAck, ShadowWriteFailure>,
    write: ShadowWrite,
    outcome: WriteOutcome,
) -> bool {
    &&& outcome matches WriteOutcome::Committed { commit, .. }
    &&& reply matches Ok(ack)
    &&& ack.identity == write.ingress()
    &&& ack.commit == commit
}

/// Whether a write was handed to storage as it was accepted, and its receipt says what
/// storage did with it.
pub open spec fn answered(run: ServiceRun, i: int) -> bool {
    let write = run.accepted[i];
    &&& run.handed[i] == (write.ingress(), write.content())
    &&& run.replies[i] == write_reply(write.ingress(), run.outcomes[i])
    &&& run.outcomes[i] is Committed ==> acknowledges(run.replies[i], write, run.outcomes[i])
}

/// Accepted writes reach storage once each and in the order in which they were accepted,
/// whenever the worker gets to them, with flushes and rejected writes among them and also
/// where a sequence or a commit repeats; those that it has not got to wait in that order.
/// The receipt of a write says what storage answered to that write. Storage stays usable,
/// so none of the writes is kept from it.
pub proof fn accepted_writes_are_committed_in_order(m: RuntimeModel, events: Seq<RuntimeEvent>)
    requires
        m.queue.len() == 0,
        m.poison is None,
        forall|i: int| 0 <= i < events.len() ==> stays_usable(#[trigger] events[i]),
    ensures
        ({
            let run = after_events(fresh_run(m), events);
            let n = run.handed.len() as int;
            &&& n <= run.accepted.len()
            &&& run.outcomes.len() == n && run.replies.len() == n
            &&& forall|i: int| 0 <= i < n ==> #[trigger] answered(run, i)
            &&& waiting_writes(run.runtime.queue) == run.accepted.skip(n)
            &&& run.runtime.poison is None
        }),
    decreases events.len(),
{
    if events.len() == 0 {
        assert(waiting_writes(m.queue) =~= Seq::<ShadowWrite>::empty().skip(0));
    } else {
        let front = events.drop_last();
        assert forall|i: int| 0 <= i < front.len() implies stays_usable(#[trigger] front[i]) by {
            assert(front[i] == events[i]);
        }
        accepted_writes_are_committed_in_order(m, front);
        let before = after_events(fresh_run(m), front);
        let event = events[events.len() - 1];
        assert(stays_usable(event));
        let run = after_event(before, event);
        let n = before.handed.len() as int;
        let queue = before.runtime.queue;
        assert forall|i: int| 0 <= i < n implies #[trigger] answered(run, i) by {
            assert(answered(before, i));
            assert(run.accepted[i] == before.accepted[i]);
        }
        match event {
            RuntimeEvent::Offer(write) => {
                lemma_waiting_push(queue, Command::Write(write));
                assert(before.accepted.push(write).skip(n) =~= before.accepted.skip(n).push(write));
            },
            RuntimeEvent::OfferFlush { source_id, through_sequence } => {
                lemma_waiting_push(queue, Command::Flush { source_id, through_sequence });
            },
            RuntimeEvent::Serve(outcome) => {
                if queue.len() > 0 {
                    lemma_waiting_first(queue);
                    if let Command::Write(write) = queue[0] {
                        assert(before.accepted.skip(n).len() > 0);
                        assert(before.accepted.skip(n)[0] == write);
                        assert(before.accepted[n] == write);
                        assert(answered(run, n));
                        assert(before.accepted.skip(n).skip(1) =~= before.accepted.skip(n + 1));
                        assert((seq![write] + waiting_writes(queue.drop_first())).skip(1)
                            =~= waiting_writes(queue.drop_first()));
                    }
                }
            },
            RuntimeEvent::ServeFlush(watermarks, outcome) => {
                if queue.len() > 0 {
                    lemma_waiting_first(queue);
                }
            },
        }
    }
}

/// After a fatal storage result no entry is accepted any more, whatever room there
/// is, and producers are told its cause.
pub proof fn fatal_errors_stop_the_writer(
    m: RuntimeModel,
    identity: IngressIdentity,
    outcome: WriteOutcome,
    points: usize,
)
    requires
        write_reply(identity, outcome) matches Err(failure) && !(failure is Rejected),
    ensures
        ({
            let after = after_write(m, identity, outcome);
            &&& after.poison is Some
            &&& after.state is Poisoned
            &&& after.last_error is Some
            &&& admission(after, points) == Admission::Poisoned(after.last_error->Some_0)
        }),
{
}

/// A rejected write leaves a healthy writer healthy: what is accepted before and
/// after it is the same, so a corrected retry of the same sequence can follow.
pub proof fn rejected_writes_can_be_retried(
    m: RuntimeModel,
    identity: IngressIdentity,
    outcome: WriteOutcome,
    points: usize,
)
    requires
        write_reply(identity, outcome) matches Err(failure) && failure is Rejected,
    ensures
        ({
            let after = after_write(m, identity, outcome);
            &&& after.state == m.state
            &&& after.poison == m.poison
            &&& after.last_error == m.last_error
            &&& after.queue == m.queue
            &&& admission(after, points) == admission(m, points)
        }),
{
}

} // verus!
