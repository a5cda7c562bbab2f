//! What the shadow writer takes, what it tells its producers, and when it stops.
#[allow(unused_imports)]
use crate::counting::sum_of;
#[allow(unused_imports)]
use crate::error::{error_text, Error};
#[allow(unused_imports)]
use crate::shadow_runtime::{
    accepted_to, admission, after_close, after_flush, after_flush_submit, after_flush_work,
    after_shutdown_request, after_submit, after_take, after_write, flush_reply, health_of,
    places_taken, points_waiting, poisons, refused_write, refuses, refuses_flush, sound,
    write_reply, CloseOutcome, Command, FlushOutcome, FlushSubmitError, PoisonModel, RuntimeModel,
    ShadowAck, ShadowFlushAck, ShadowFlushFailure, ShadowRuntimeState, ShadowWrite,
    ShadowWriteFailure, SubmitError, WriteOutcome,
};
#[allow(unused_imports)]
use crate::storage::{IngressIdentity, IngressWatermarks};
#[allow(unused_imports)]
use crate::transaction::{counted_points, points_in, RecordModel};
use vstd::prelude::*;

verus! {

/// A write is taken exactly while the writer runs and has a worker, a place is free, and
/// its points fit beside those that wait. It then waits behind all others, as it was
/// offered. A refused write leaves everything as it was.
pub proof fn writes_are_taken_where_there_is_room(m: RuntimeModel, write: ShadowWrite)
    ensures
        admission(m, write.points()) is Accepted <==> {
            &&& m.state == ShadowRuntimeState::Running
            &&& m.receiving
            &&& m.usage.queued < m.queue_capacity
            &&& m.usage.points + write.points() <= m.max_queued_points
        },
        admission(m, write.points()) is Accepted ==> {
            let after = after_submit(m, write);
            &&& after.queue == m.queue.push(Command::Write(write))
            &&& m.usage.queued < usize::MAX ==> after.usage.queued == m.usage.queued + 1
            &&& after.usage.points == m.usage.points + write.points()
            &&& m.accepted < u64::MAX ==> after.accepted == m.accepted + 1
            &&& after.acknowledged == m.acknowledged
            &&& after.failed == m.failed
            &&& after.state == m.state
            &&& after.source_watermarks == m.source_watermarks
        },
        !(admission(m, write.points()) is Accepted) ==> after_submit(m, write) == m,
        m.state == ShadowRuntimeState::Poisoned <==> admission(m, write.points()) is Poisoned,
        m.state == ShadowRuntimeState::Running && m.usage.queued >= m.queue_capacity
            <==> admission(m, write.points()) is Overloaded,
        m.state == ShadowRuntimeState::Running && m.usage.queued < m.queue_capacity
            && m.usage.points + write.points() > m.max_queued_points <==> admission(
            m,
            write.points(),
        ) is PointBudgetExhausted,
{
}

/// A flush takes a place and no points, and waits behind all that was accepted before it.
pub proof fn flushes_wait_behind_what_was_accepted(
    m: RuntimeModel,
    source_id: u128,
    through_sequence: u64,
)
    requires
        sound(m),
    ensures
        ({
            let after = after_flush_submit(m, source_id, through_sequence);
            let taken = m.state == ShadowRuntimeState::Running && m.receiving && m.usage.queued
                < m.queue_capacity;
            &&& taken ==> after.queue == m.queue.push(Command::Flush { source_id, through_sequence })
                && after.usage.queued == m.usage.queued + 1 && after.usage.points == m.usage.points
            &&& !taken ==> after == m
            &&& after.accepted == m.accepted
        }),
{
}

/// What is taken out gives its room back: its place, and for a write its points.
pub proof fn entries_give_their_room_back(m: RuntimeModel)
    requires
        sound(m),
        m.queue.len() > 0,
    ensures
        after_take(m).queue == m.queue.drop_first(),
        m.queue[0] matches Command::Write(write) ==> after_take(m).usage.points + write.points()
            == m.usage.points && after_take(m).usage.queued + 1 == m.usage.queued,
        m.queue[0] is Flush ==> after_take(m).usage.points == m.usage.points && after_take(
            m,
        ).usage.queued + 1 == m.usage.queued,
        m.queue[0] is Shutdown ==> after_take(m).usage == m.usage,
        after_take(m).state == m.state,
        after_take(m).accepted == m.accepted,
{
    assert(places_taken(m.queue) == m.queue[0].places() + places_taken(m.queue.drop_first()));
    assert(points_waiting(m.queue) == m.queue[0].cost() + points_waiting(m.queue.drop_first()));
}

/// The errors behind which it is not known what the log holds, and no others, stop the
/// writer: a failed call of the operating system, a header or a version that cannot be
/// read, corruption, a store that stopped before, and a publication that was cut short.
/// What else storage refuses, it refuses for one request.
pub proof fn fatal_errors_are_listed(error: Error)
    ensures
        poisons(error) <==> error is Io || error is InvalidHeader || error is UnsupportedVersion
            || error is Corruption || error is Poisoned || error is SnapshotPublication,
{
}

/// A producer is told what storage did. A commit is acknowledged with the commit as
/// storage gave it and the watermarks that it gave with it, under the identity of the
/// write. An error is told as the store's refusal or as the end of the writer.
pub proof fn producers_are_told_what_storage_did(identity: IngressIdentity, outcome: WriteOutcome)
    ensures
        write_reply(identity, outcome) is Ok <==> outcome is Committed,
        outcome matches WriteOutcome::Committed { commit, watermarks, .. } ==> {
            let ack = write_reply(identity, outcome)->Ok_0;
            &&& ack.identity == identity
            &&& ack.commit == commit
            &&& ack.accepted_through == watermarks.accepted_through
            &&& ack.durable_through == watermarks.durable_through
        },
        outcome matches WriteOutcome::Failed { error, .. } ==> (write_reply(identity, outcome)
            matches Err(failure) && if error is Io || error is InvalidHeader || error
            is UnsupportedVersion || error is Corruption || error is Poisoned || error
            is SnapshotPublication {
            failure == ShadowWriteFailure::Writer(error)
        } else {
            failure == ShadowWriteFailure::Rejected(error)
        }),
        outcome matches WriteOutcome::Panicked { cause } ==> write_reply(identity, outcome)
            == Err::<ShadowAck, _>(ShadowWriteFailure::WriterPanicked { cause }),
{
}

/// The writer counts what storage did. A commit counts as acknowledged, and anything else
/// as failed. The watermarks of the source are what storage said, and those of the other
/// sources stay. The last acknowledgement counts as durable where the commit was. Only a
/// fatal error or a panic changes the state.
pub proof fn writers_count_what_storage_did(
    m: RuntimeModel,
    identity: IngressIdentity,
    outcome: WriteOutcome,
)
    ensures
        ({
            let after = after_write(m, identity, outcome);
            &&& after.queue == m.queue && after.usage == m.usage && after.accepted == m.accepted
            &&& outcome matches WriteOutcome::Committed { commit, watermarks, snapshot } ==> {
                &&& m.acknowledged < u64::MAX ==> after.acknowledged == m.acknowledged + 1
                &&& after.failed == m.failed
                &&& after.state == m.state
                &&& after.poison == m.poison
                &&& after.last_error == m.last_error
                &&& after.source_watermarks == m.source_watermarks.insert(
                    identity.source_id,
                    watermarks,
                )
                &&& after.store.last_ack_durable == commit.durable
                &&& snapshot matches Some(fresh) ==> after.store.bytes == fresh.bytes
                    && after.store.points == fresh.points && after.store.commits == fresh.commits
                    && after.store.recovered_tail_bytes == fresh.recovered_tail_bytes
                    && after.store.durability == fresh.durability
                &&& snapshot is None ==> after.store.bytes == m.store.bytes && after.store.points
                    == m.store.points && after.store.commits == m.store.commits
                    && after.store.recovered_tail_bytes == m.store.recovered_tail_bytes
                    && after.store.durability == m.store.durability
            }
            &&& outcome matches WriteOutcome::Failed { error, watermarks } ==> {
                let fatal = error is Io || error is InvalidHeader || error is UnsupportedVersion
                    || error is Corruption || error is Poisoned || error is SnapshotPublication;
                &&& after.acknowledged == m.acknowledged
                &&& m.failed < u64::MAX ==> after.failed == m.failed + 1
                &&& after.store == m.store
                &&& after.source_watermarks == m.source_watermarks.insert(
                    identity.source_id,
                    watermarks,
                )
                &&& fatal ==> after.state == ShadowRuntimeState::Poisoned && after.poison == Some(
                    PoisonModel::Error(error_text(error)),
                ) && after.last_error == Some(error_text(error))
                &&& !fatal ==> after.state == m.state && after.poison == m.poison
                    && after.last_error == m.last_error
            }
            &&& outcome matches WriteOutcome::Panicked { cause } ==> {
                &&& after.acknowledged == m.acknowledged
                &&& m.failed < u64::MAX ==> after.failed == m.failed + 1
                &&& after.state == ShadowRuntimeState::Poisoned
                &&& after.poison == Some(PoisonModel::Panic(cause@))
                &&& after.last_error == Some(cause@)
                &&& after.source_watermarks == m.source_watermarks
            }
        }),
{
}

/// A flush is answered with the watermarks that the source has behind it. The writer then
/// knows the watermarks of every source that it has seen as storage has them, and counts
/// the last acknowledgement as durable.
pub proof fn flushes_are_answered_with_watermarks(
    m: RuntimeModel,
    source_id: u128,
    through_sequence: u64,
    outcome: FlushOutcome,
)
    ensures
        flush_reply(source_id, through_sequence, outcome) is Ok <==> outcome is Flushed,
        outcome matches FlushOutcome::Flushed { watermarks, snapshot } ==> {
            let ack = flush_reply(source_id, through_sequence, outcome)->Ok_0;
            let after = after_flush(m, outcome);
            &&& ack.source_id == source_id
            &&& ack.through_sequence == through_sequence
            &&& watermarks@.contains_key(source_id) ==> ack.accepted_through
                == watermarks@[source_id].accepted_through && ack.durable_through
                == watermarks@[source_id].durable_through
            &&& !watermarks@.contains_key(source_id) ==> ack.accepted_through is None
                && ack.durable_through is None
            &&& after.source_watermarks.dom() == m.source_watermarks.dom()
            &&& forall|id: u128| #[trigger]
                after.source_watermarks.contains_key(id) && watermarks@.contains_key(id)
                    ==> after.source_watermarks[id] == watermarks@[id]
            &&& after.store.last_ack_durable
            &&& after.failed == m.failed
            &&& after.acknowledged == m.acknowledged
            &&& after.state == m.state
            &&& after.queue == m.queue
        },
        outcome matches FlushOutcome::Failed(error) ==> {
            let fatal = error is Io || error is InvalidHeader || error is UnsupportedVersion
                || error is Corruption || error is Poisoned || error is SnapshotPublication;
            let after = after_flush(m, outcome);
            &&& flush_reply(source_id, through_sequence, outcome) == Err::<ShadowFlushAck, _>(
                if fatal {
                    ShadowFlushFailure::Writer(error)
                } else {
                    ShadowFlushFailure::Rejected(error)
                },
            )
            &&& m.failed < u64::MAX ==> after.failed == m.failed + 1
            &&& fatal ==> after.state == ShadowRuntimeState::Poisoned
            &&& !fatal ==> after.state == m.state && after.poison == m.poison
            &&& after.source_watermarks == m.source_watermarks
            &&& after.store == m.store
        },
        outcome matches FlushOutcome::Panicked { cause } ==> flush_reply(
            source_id,
            through_sequence,
            outcome,
        ) == Err::<ShadowFlushAck, _>(ShadowFlushFailure::WriterPanicked { cause })
            && after_flush(m, outcome).state == ShadowRuntimeState::Poisoned,
{
    if let FlushOutcome::Flushed { watermarks, snapshot } = outcome {
        assert(after_flush(m, outcome).source_watermarks.dom() =~= m.source_watermarks.dom());
    }
}

/// A writer that is asked to close takes nothing more, and first works on what it has
/// accepted: the request waits behind it.
pub proof fn closing_writers_finish_first(m: RuntimeModel, write: ShadowWrite)
    ensures
        ({
            let after = after_shutdown_request(m);
            &&& m.receiving ==> after.queue == m.queue.push(Command::Shutdown)
            &&& !m.receiving ==> after.queue == m.queue
            &&& after.state != ShadowRuntimeState::Running
            &&& m.state == ShadowRuntimeState::Running ==> after.state
                == ShadowRuntimeState::Closing
            &&& m.state != ShadowRuntimeState::Running ==> after.state == m.state
            &&& !(admission(after, write.points()) is Accepted)
            &&& after.usage == m.usage
        }),
{
}

/// A writer that was closed stays closed, whatever storage said of it, and knows the
/// watermarks of all sources where storage could say them.
pub proof fn closed_writers_stay_closed(m: RuntimeModel, outcome: CloseOutcome)
    ensures
        after_close(m, outcome).state == ShadowRuntimeState::Closed,
        !after_close(m, outcome).receiving,
        outcome matches CloseOutcome::Closed { watermarks } ==> after_close(
            m,
            outcome,
        ).source_watermarks == watermarks@ && after_close(m, outcome).failed == m.failed,
        !(outcome is Closed) && m.failed < u64::MAX ==> after_close(m, outcome).failed == m.failed
            + 1,
        outcome matches CloseOutcome::Failed(error) ==> after_close(m, outcome).last_error
            == Some(error_text(error)),
{
}

/// A flush is carried out exactly where storage has accepted the source through the asked
/// sequence number, the number itself included. Otherwise it counts as failed and changes
/// nothing in the store.
pub proof fn flushes_need_accepted_sequences(
    m: RuntimeModel,
    source_id: u128,
    through_sequence: u64,
    watermarks: IngressWatermarks,
    outcome: FlushOutcome,
)
    ensures
        ({
            let after = after_flush_work(m, source_id, through_sequence, watermarks, outcome);
            let accepted = watermarks.accepted_through is Some && through_sequence
                <= watermarks.accepted_through->Some_0;
            &&& accepted_to(watermarks, through_sequence) <==> accepted
            &&& !accepted ==> {
                &&& m.failed < u64::MAX ==> after.failed == m.failed + 1
                &&& after.store == m.store
                &&& after.state == m.state
                &&& after.source_watermarks == m.source_watermarks.insert(source_id, watermarks)
            }
            &&& accepted && outcome is Flushed ==> {
                &&& after.failed == m.failed
                &&& after.store.last_ack_durable
                &&& after.source_watermarks.contains_key(source_id)
            }
            &&& accepted && !(outcome is Flushed) && m.failed < u64::MAX ==> after.failed == m.failed
                + 1
        }),
{
}

/// Behind a flush, a source of which storage knows nothing has no watermarks, and what is
/// known of the store is what storage said.
pub proof fn flushed_stores_are_known(m: RuntimeModel, outcome: FlushOutcome, id: u128)
    ensures
        outcome matches FlushOutcome::Flushed { watermarks, snapshot } ==> {
            let after = after_flush(m, outcome);
            &&& m.source_watermarks.contains_key(id) && !watermarks@.contains_key(id)
                ==> after.source_watermarks[id].accepted_through is None
                && after.source_watermarks[id].durable_through is None
            &&& snapshot matches Some(fresh) ==> after.store.bytes == fresh.bytes
                && after.store.points == fresh.points && after.store.commits == fresh.commits
                && after.store.recovered_tail_bytes == fresh.recovered_tail_bytes
                && after.store.durability == fresh.durability
            &&& snapshot is None ==> after.store.bytes == m.store.bytes && after.store.points
                == m.store.points && after.store.commits == m.store.commits
                && after.store.recovered_tail_bytes == m.store.recovered_tail_bytes
                && after.store.durability == m.store.durability
        },
        outcome matches FlushOutcome::Panicked { cause } ==> {
            let after = after_flush(m, outcome);
            &&& m.failed < u64::MAX ==> after.failed == m.failed + 1
            &&& after.poison == Some(PoisonModel::Panic(cause@))
            &&& after.last_error == Some(cause@)
        },
{
}

/// A refused write goes back to its producer with the reason: no place, no room for its
/// points, a writer that is closing or closed, or one that has failed.
pub proof fn refused_writes_go_back_with_the_reason(
    m: RuntimeModel,
    write: ShadowWrite,
    error: SubmitError,
)
    requires
        refuses(error, write, admission(m, write.points())),
    ensures
        refused_write(error) == write,
        error is Poisoned <==> m.state == ShadowRuntimeState::Poisoned,
        error matches SubmitError::Poisoned { cause, .. } ==> (m.last_error matches Some(said)
            ==> cause@ == said),
        error is Overloaded <==> m.state == ShadowRuntimeState::Running && m.usage.queued
            >= m.queue_capacity,
        error is PointBudgetExhausted <==> m.state == ShadowRuntimeState::Running && m.usage.queued
            < m.queue_capacity && m.usage.points + write.points() > m.max_queued_points,
        m.state == ShadowRuntimeState::Closing || m.state == ShadowRuntimeState::Closed ==> error
            is Closed,
{
}

/// A refused flush says whether it may be tried again: only a full queue lets it.
pub proof fn refused_flushes_go_back_with_the_reason(m: RuntimeModel, error: FlushSubmitError)
    requires
        refuses_flush(error, admission(m, 0)),
        sound(m),
    ensures
        error is Poisoned <==> m.state == ShadowRuntimeState::Poisoned,
        error is Overloaded <==> m.state == ShadowRuntimeState::Running && m.usage.queued
            >= m.queue_capacity,
        m.state == ShadowRuntimeState::Closing || m.state == ShadowRuntimeState::Closed ==> error
            is Closed,
{
}

/// The points of a write are those of all its records together.
pub proof fn writes_cost_their_points(records: Seq<RecordModel>)
    ensures
        points_in(records) == sum_of(
            Seq::new(
                records.len(),
                |i: int|
                    match records[i] {
                        RecordModel::Points(points) => points.len() as int,
                        _ => 0,
                    },
            ),
        ),
        points_in(records) <= usize::MAX ==> counted_points(records) == points_in(records),
    decreases records.len(),
{
    if records.len() > 0 {
        let front = records.drop_last();
        writes_cost_their_points(front);
        let all = Seq::new(
            records.len(),
            |i: int|
                match records[i] {
                    RecordModel::Points(points) => points.len() as int,
                    _ => 0,
                },
        );
        assert(all.drop_last() =~= Seq::new(
            front.len(),
            |i: int|
                match front[i] {
                    RecordModel::Points(points) => points.len() as int,
                    _ => 0,
                },
        ));
    }
}

/// Operators see the writer as it is.
pub proof fn health_shows_the_writer(m: RuntimeModel)
    ensures
        ({
            let health = health_of(m);
            &&& health.state == m.state
            &&& health.queued == m.usage.queued
            &&& health.queued_points == m.usage.points
            &&& health.queue_capacity == m.queue_capacity
            &&& health.max_queued_points == m.max_queued_points
            &&& health.accepted == m.accepted
            &&& health.acknowledged == m.acknowledged
            &&& health.failed == m.failed
            &&& health.source_watermarks == m.source_watermarks
            &&& health.last_error == m.last_error
            &&& health.store == m.store
        }),
{
}

} // verus!
