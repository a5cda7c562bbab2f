//! What the shadow server owes its clients, whatever the writer and the store say.
#[allow(unused_imports)]
use crate::error::Error;
#[allow(unused_imports)]
use crate::shadow_protocol::{
    Ack, AckKind, ErrorCode, HealthStatus, MessageModel, SyncPolicy, WireMessage,
};
#[allow(unused_imports)]
use crate::shadow_runtime::{
    AckWaitError, FlushSubmitError, ShadowAck, ShadowFlushAck, ShadowFlushFailure, ShadowHealth,
    ShadowRuntimeState, ShadowWriteFailure, SubmitError,
};
#[allow(unused_imports)]
use crate::shadow_server::{
    bound_source, commit_answer, flush_answer, flush_failure_answer, flush_submit_answer,
    health_answer, store_answer, submit_answer, tells_overload, turn_for, write_failure_answer,
    ServerCounters, TurnModel,
};
#[allow(unused_imports)]
use crate::storage::{Durability, IngressIdentity};
use vstd::prelude::*;

verus! {

/// An acknowledgement of a commit tells what storage said of it, and of the commit that
/// was sent. It says durable exactly where storage has synced the commit.
pub proof fn commits_are_acknowledged_truthfully(
    identity: IngressIdentity,
    ack: ShadowAck,
    message: WireMessage,
)
    requires
        message.deep_view() == commit_answer(identity, Ok(Ok(ack))),
    ensures
        message.deep_view() is Ack,
        ({
            let told = message.deep_view()->Ack_0;
            &&& told.kind == AckKind::CommitBatch
            &&& told.durable == ack.commit.durable
            &&& told.deduplicated == ack.commit.deduplicated
            &&& told.source_id == identity.source_id
            &&& told.sequence == identity.sequence
            &&& told.commit_id == identity.commit_id
            &&& told.accepted_through_sequence == ack.accepted_through
            &&& told.durable_through_sequence == ack.durable_through
            &&& told.frame_offset == ack.commit.frame_offset
            &&& told.bytes_written == ack.commit.bytes_written
            &&& ack.commit.records <= u32::MAX ==> told.records == ack.commit.records
            &&& ack.commit.points <= u32::MAX ==> told.points == ack.commit.points
            &&& ack.commit.records > u32::MAX ==> told.records == u32::MAX
            &&& ack.commit.points > u32::MAX ==> told.points == u32::MAX
        }),
{
}

/// Nothing is acknowledged that storage has not taken: every other outcome of a commit is
/// answered by an error.
pub proof fn failed_commits_are_not_acknowledged(
    identity: IngressIdentity,
    outcome: Result<Result<ShadowAck, ShadowWriteFailure>, AckWaitError>,
)
    ensures
        commit_answer(identity, outcome) is Ack <==> outcome matches Ok(Ok(_)),
        commit_answer(identity, outcome) is Ack || commit_answer(identity, outcome) is Error,
        outcome is Err ==> commit_answer(identity, outcome)->Error_0.code == ErrorCode::Internal
            && commit_answer(identity, outcome)->Error_0.retryable,
{
}

/// A flush is acknowledged exactly where all up to its sequence is durable, and then as
/// durable. It names the source and the sequence that were asked for, and no commit.
pub proof fn flushes_are_acknowledged_truthfully(
    source_id: u128,
    through_sequence: u64,
    outcome: Result<Result<ShadowFlushAck, ShadowFlushFailure>, AckWaitError>,
)
    ensures
        ({
            let answer = flush_answer(source_id, through_sequence, outcome);
            &&& answer is Ack || answer is Error
            &&& answer is Ack <==> (outcome matches Ok(Ok(ack)) && ack.durable_through matches Some(
                durable,
            ) && durable >= through_sequence)
            &&& answer matches MessageModel::Ack(told) ==> {
                &&& told.kind == AckKind::Flush
                &&& told.durable
                &&& !told.deduplicated
                &&& told.source_id == source_id
                &&& told.sequence == through_sequence
                &&& told.commit_id == 0
                &&& told.accepted_through_sequence == outcome->Ok_0->Ok_0.accepted_through
                &&& told.durable_through_sequence == outcome->Ok_0->Ok_0.durable_through
                &&& told.records == 0 && told.points == 0 && told.bytes_written == 0
                    && told.frame_offset == 0
            }
            &&& outcome matches Ok(Err(ShadowFlushFailure::NotAccepted { .. })) ==> answer
                matches MessageModel::Error(error) && error.code == ErrorCode::InvalidRequest
                && error.retryable
        }),
{
}

/// What the store refuses is told by its kind. A sequence or a commit that stands for
/// other bytes is a conflict; a request that cannot be stored as it is, is invalid; and
/// neither is worth another try. All else is the writer's fault, and may be tried again.
pub proof fn refused_writes_say_whether_to_retry(error: Error)
    ensures
        ({
            let answer = store_answer(error);
            let conflict = error is IngressSourceSequenceConflict || error
                is IngressCommitIdConflict;
            let wrong = error is IngressSequenceNotIncreasing || error is BatchTooLarge || error
                is InvalidArgument || error is InvalidModel || error is Serialization;
            &&& answer is Error
            &&& answer->Error_0.retryable == !(conflict || wrong)
            &&& answer->Error_0.code == if conflict {
                ErrorCode::IdempotencyConflict
            } else if wrong {
                ErrorCode::InvalidRequest
            } else {
                ErrorCode::Internal
            }
            &&& write_failure_answer(ShadowWriteFailure::Rejected(error)) == answer
            &&& flush_failure_answer(ShadowFlushFailure::Rejected(error)) == answer
        }),
{
}

/// A full queue is told as overload, and a writer that has stopped as unavailable. Both
/// may be tried again.
pub proof fn refused_entries_may_be_tried_again(error: SubmitError, flush: FlushSubmitError)
    ensures
        ({
            let answer = submit_answer(error);
            let full = error is Overloaded || error is PointBudgetExhausted || error
                is DeadlineExceeded;
            &&& answer matches MessageModel::Error(told) && told.retryable && told.code == if full {
                ErrorCode::Overloaded
            } else {
                ErrorCode::Internal
            }
            &&& tells_overload(answer) == full
        }),
        ({
            let answer = flush_submit_answer(flush);
            let full = flush is Overloaded || flush is DeadlineExceeded;
            &&& answer matches MessageModel::Error(told) && told.retryable && told.code == if full {
                ErrorCode::Overloaded
            } else {
                ErrorCode::Internal
            }
            &&& tells_overload(answer) == full
        }),
{
}

/// A failure that is not the store's refusal leaves the writer unavailable, which a client
/// is told as such.
pub proof fn failed_writers_are_unavailable(failure: ShadowWriteFailure, flush: ShadowFlushFailure)
    ensures
        !(failure is Rejected) ==> (write_failure_answer(failure) matches MessageModel::Error(told)
            && told.code == ErrorCode::Internal && told.retryable),
        !(flush is Rejected) && !(flush is NotAccepted) ==> (flush_failure_answer(flush)
            matches MessageModel::Error(told) && told.code == ErrorCode::Internal
            && told.retryable),
{
}

/// The health of the writer is told as it is: every count, the watermarks of the source
/// that asks, the policy, and whether the last acknowledgement was durable. A writer is
/// healthy only while it runs.
pub proof fn health_is_told_as_it_is(
    nonce: u64,
    source_id: u128,
    health: ShadowHealth,
    counters: ServerCounters,
)
    ensures
        health_answer(nonce, source_id, health, counters) is HealthReply,
        ({
            let told = health_answer(nonce, source_id, health, counters)->HealthReply_0;
            &&& told.nonce == nonce
            &&& told.source_id == source_id
            &&& told.status == HealthStatus::Healthy <==> health.state
                == ShadowRuntimeState::Running
            &&& told.status == HealthStatus::Degraded <==> health.state
                == ShadowRuntimeState::Closing
            &&& told.overload_count == counters.overload_count
            &&& told.protocol_error_count == counters.protocol_error_count
            &&& told.database_bytes == health.database_bytes
            &&& told.database_points == health.database_points
            &&& told.database_commits == health.database_commits
            &&& told.recovered_tail_bytes == health.recovered_tail_bytes
            &&& told.last_ack_durable == health.last_ack_durable
            &&& health.source_watermarks@.contains_key(source_id) ==> told.accepted_through_sequence
                == health.source_watermarks@[source_id].accepted_through
                && told.durable_through_sequence
                == health.source_watermarks@[source_id].durable_through
            &&& !health.source_watermarks@.contains_key(source_id) ==> told.accepted_through_sequence
                is None && told.durable_through_sequence is None
            &&& health.queued <= u32::MAX ==> told.queue_entries == health.queued
            &&& health.queued > u32::MAX ==> told.queue_entries == u32::MAX
            &&& told.sync_policy is Always <==> health.durability is Always
            &&& told.sync_policy is Manual <==> health.durability is Manual
            &&& health.durability matches Durability::EveryBytes(bytes) ==> told.sync_policy
                == SyncPolicy::EveryBytes(bytes)
        }),
{
}

/// A client that greets with a source is bound to it, and told so. From then on its own
/// batches and flushes reach the writer as they were sent, and questions for health are
/// about its own source.
pub proof fn own_requests_reach_the_writer(
    bound: Option<u128>,
    message: MessageModel,
    session_id: Seq<u8>,
    server_time_micros: i64,
)
    ensures
        ({
            let turn = turn_for(bound, message, session_id, server_time_micros);
            &&& message matches MessageModel::Hello(hello) ==> if bound is None && hello.source_id
                != 0 {
                &&& bound_source(bound, message) == Some(hello.source_id)
                &&& turn matches TurnModel::Answer(MessageModel::HelloReply(reply))
                    && reply.selected_version == 1 && reply.session_id == session_id
                    && reply.server_time_micros == server_time_micros
            } else {
                &&& bound_source(bound, message) == bound
                &&& turn matches TurnModel::Answer(MessageModel::Error(told)) && told.code
                    == ErrorCode::InvalidRequest && !told.retryable
            }
            &&& !(message is Hello) ==> bound_source(bound, message) == bound
            &&& message matches MessageModel::CommitBatch(batch) ==> {
                &&& turn == TurnModel::Commit(batch) <==> bound == Some(batch.source_id)
                &&& turn is Commit || turn is Answer
            }
            &&& message matches MessageModel::Flush(flush) ==> {
                &&& turn == TurnModel::Flush(flush.source_id, flush.through_sequence) <==> bound
                    == Some(flush.source_id)
                &&& turn is Flush || turn is Answer
            }
            &&& message matches MessageModel::Health(request) ==> {
                &&& bound matches Some(source_id) ==> turn == TurnModel::Health(
                    request.nonce,
                    source_id,
                )
                &&& bound is None ==> turn is Answer
            }
            &&& message is Ack || message is Error || message is HelloReply || message
                is HealthReply ==> (turn matches TurnModel::Answer(MessageModel::Error(told))
                && told.code == ErrorCode::InvalidRequest && !told.retryable)
        }),
{
}

} // verus!
