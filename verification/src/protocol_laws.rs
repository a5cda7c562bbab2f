//! What travels between a producer and its sidecar: which messages can be sent and
//! taken, and what a frame is made of.
#[allow(unused_imports)]
use crate::bytes::{be, bits_of_i64, from_be, lemma_be_len};
#[allow(unused_imports)]
use crate::checksum::crc32_of;
#[allow(unused_imports)]
use crate::model::{
    finite, plan_fault, series_fault, tiers_fault, Entity, Plan, PlanModel, Point, Relation,
    ResolutionModel, Run, SeriesDefinition, SeriesModel, TierModel,
};
#[allow(unused_imports)]
use crate::shadow_protocol::{
    ack_fault, ack_kind_tag, batch_fault, decoded, emit_batch, emit_payload, encoded, error_tag,
    flush_fault, frame_is_bounded, frame_round_trip, header, hello_fault, message_ordered,
    payload_message, plan_list_fault, point_valid, queue_fault, series_list_fault, source_fault,
    status_tag, version_fault, wanted, Ack, AckKind, BatchModel, ErrorCode, ErrorModel,
    FlushRequest, HealthRequest, HealthResponse, HealthStatus, HelloModel, HelloReplyModel,
    MessageModel, ProtocolError, SyncPolicy,
};
#[allow(unused_imports)]
use crate::text::blank;
#[allow(unused_imports)]
use crate::wire::{
    emit_be, emit_bool, emit_check, emit_i64, emit_option_u64, emit_raw, emit_string, emit_u8, Emit,
};
#[allow(unused_imports)]
use crate::wire_records::{field_fault, lemma_all_faults_stay, WireRecord};
use vstd::prelude::*;
#[allow(unused_imports)]
use vstd::utf8::encode_utf8;

verus! {

// What a batch may hold.

/// A rollup tier has a resolution above zero or a time zone, and keeps its buckets for ever
/// or for a time above zero.
pub open spec fn tier_needs(tier: TierModel) -> bool {
    &&& match tier.resolution {
        ResolutionModel::FixedMicros(micros) => micros > 0,
        ResolutionModel::Calendar { unit: _, iana_timezone } => !blank(iana_timezone),
    }
    &&& tier.retain_for_micros matches Some(micros) ==> micros > 0
}

/// A series has an identity, a name, a quantity and a unit, one owner of the two kinds, no
/// negative gap, and usable tiers.
pub open spec fn series_needs(series: SeriesModel) -> bool {
    &&& series.id != 0
    &&& !blank(series.name)
    &&& !blank(series.physical_quantity)
    &&& !blank(series.canonical_unit)
    &&& series.owner_entity is Some ==> series.owner_relation is None
    &&& series.owner_entity is None ==> series.owner_relation is Some
    &&& series.maximum_gap_micros matches Some(gap) ==> gap >= 0
    &&& forall|i: int|
        0 <= i < series.rollup_policy.tiers.len() ==> tier_needs(
            #[trigger] series.rollup_policy.tiers[i],
        )
}

/// A plan has an identity and a run, covers some time in steps above zero, and has a
/// scenario.
pub open spec fn plan_needs(plan: PlanModel) -> bool {
    &&& plan.id != 0
    &&& plan.run_id.0 != 0
    &&& plan.horizon_start < plan.horizon_end
    &&& plan.resolution_micros > 0
    &&& !blank(plan.scenario)
}

/// A point has a series, does not end before it starts, and has a finite value.
pub open spec fn point_needs(p: Point) -> bool {
    &&& p.series_id != 0
    &&& p.valid_time <= p.valid_time_end
    &&& finite(p.value)
}

proof fn lemma_tiers(tiers: Seq<TierModel>)
    ensures
        tiers_fault(tiers) is None <==> forall|i: int|
            0 <= i < tiers.len() ==> tier_needs(#[trigger] tiers[i]),
    decreases tiers.len(),
{
    if tiers.len() > 0 {
        let front = tiers.drop_last();
        lemma_tiers(front);
        assert(tiers.last() == tiers[tiers.len() - 1]);
        assert(forall|i: int| 0 <= i < front.len() ==> #[trigger] front[i] == tiers[i]);
        if tiers_fault(tiers) is None {
            assert forall|i: int| 0 <= i < tiers.len() implies tier_needs(#[trigger] tiers[i]) by {
                if i < front.len() {
                    assert(tier_needs(front[i]));
                }
            }
        }
        if forall|i: int| 0 <= i < tiers.len() ==> tier_needs(#[trigger] tiers[i]) {
            assert forall|i: int| 0 <= i < front.len() implies tier_needs(#[trigger] front[i]) by {
                assert(tier_needs(tiers[i]));
            }
            assert(tier_needs(tiers[tiers.len() - 1]));
        }
    }
}

/// A definition of a series is taken exactly where it has what a series needs, and a plan
/// where it has what a plan needs.
pub proof fn definitions_are_taken_where_nothing_is_missing(series: SeriesModel, plan: PlanModel)
    ensures
        series_fault(series) is None <==> series_needs(series),
        plan_fault(plan) is None <==> plan_needs(plan),
{
    lemma_tiers(series.rollup_policy.tiers);
}

proof fn lemma_series_list(v: Seq<SeriesModel>)
    ensures
        series_list_fault(v) is None <==> forall|i: int|
            0 <= i < v.len() ==> series_needs(#[trigger] v[i]),
    decreases v.len(),
{
    if v.len() > 0 {
        let front = v.drop_last();
        lemma_series_list(front);
        lemma_tiers(v.last().rollup_policy.tiers);
        assert(series_fault(v.last()) is None <==> series_needs(v.last()));
        if series_list_fault(v) is None {
            assert forall|i: int| 0 <= i < v.len() implies series_needs(#[trigger] v[i]) by {
                if i < front.len() {
                    assert(series_needs(front[i]));
                }
            }
        }
        if forall|i: int| 0 <= i < v.len() ==> series_needs(#[trigger] v[i]) {
            assert forall|i: int| 0 <= i < front.len() implies series_needs(#[trigger] front[i]) by {
                assert(series_needs(v[i]));
            }
            assert(series_needs(v[v.len() - 1]));
        }
    }
}

proof fn lemma_plan_list(v: Seq<PlanModel>)
    ensures
        plan_list_fault(v) is None <==> forall|i: int|
            0 <= i < v.len() ==> plan_needs(#[trigger] v[i]),
    decreases v.len(),
{
    if v.len() > 0 {
        let front = v.drop_last();
        lemma_plan_list(front);
        if plan_list_fault(v) is None {
            assert forall|i: int| 0 <= i < v.len() implies plan_needs(#[trigger] v[i]) by {
                if i < front.len() {
                    assert(plan_needs(front[i]));
                }
            }
        }
        if forall|i: int| 0 <= i < v.len() ==> plan_needs(#[trigger] v[i]) {
            assert forall|i: int| 0 <= i < front.len() implies plan_needs(#[trigger] front[i]) by {
                assert(plan_needs(v[i]));
            }
            assert(plan_needs(v[v.len() - 1]));
        }
    }
}

/// What a batch holds that may be committed: a source, something to store and not too much
/// of it, and nothing but usable series, plans and points.
pub open spec fn batch_needs(v: BatchModel) -> bool {
    let records = v.entities.len() + v.relations.len() + v.series.len() + v.runs.len()
        + v.plans.len();
    &&& v.source_id != 0
    &&& 0 < records + v.points.len()
    &&& records <= 16_384
    &&& v.points.len() <= 16_384
    &&& forall|i: int| 0 <= i < v.series.len() ==> series_needs(#[trigger] v.series[i])
    &&& forall|i: int| 0 <= i < v.plans.len() ==> plan_needs(#[trigger] v.plans[i])
    &&& forall|i: int| 0 <= i < v.points.len() ==> point_needs(#[trigger] v.points[i])
}

/// A batch is valid exactly where it holds what it needs.
pub proof fn batches_are_valid_where_nothing_is_missing(v: BatchModel)
    ensures
        batch_fault(v) is None <==> batch_needs(v),
{
    lemma_series_list(v.series);
    lemma_plan_list(v.plans);
    if batch_fault(v) is None {
        assert forall|i: int| 0 <= i < v.points.len() implies point_needs(
            #[trigger] v.points[i],
        ) by {
            assert(point_valid(v.points[i]));
        }
    }
    if batch_needs(v) && exists|i: int|
        0 <= i < v.points.len() && !point_valid(#[trigger] v.points[i]) {
        let i = choose|i: int|
            0 <= i < v.points.len() && !point_valid(#[trigger] v.points[i]);
        assert(point_needs(v.points[i]));
    }
}

// Which messages are sent and taken.

/// Whether a message may be on the wire: it names its source where it has one, says no more
/// than there is room for, and a batch holds what it needs.
pub open spec fn may_travel(m: MessageModel) -> bool {
    match m {
        MessageModel::Hello(v) => {
            &&& v.source_id != 0
            &&& 0 < encode_utf8(v.node_id).len() <= 128
            &&& 0 < encode_utf8(v.client_version).len() <= 64
        },
        MessageModel::CommitBatch(v) => batch_needs(v),
        MessageModel::Flush(v) => v.source_id != 0,
        MessageModel::Health(_) => true,
        MessageModel::HelloReply(v) => v.selected_version == 1,
        MessageModel::Ack(v) => v.source_id != 0,
        MessageModel::HealthReply(v) => {
            &&& v.source_id != 0
            &&& v.queue_entries <= 65_536
            &&& v.sync_policy != SyncPolicy::EveryBytes(0)
        },
        MessageModel::Error(v) => 0 < encode_utf8(v.message).len() <= 512,
    }
}

proof fn lemma_numbers(s: Emit, v: nat, width: nat)
    ensures
        s matches Emit::Bytes(b) ==> emit_be(s, v, width) matches Emit::Bytes(c) && c.len()
            == b.len() + width,
        s is Fault ==> emit_be(s, v, width) == s,
{
    lemma_be_len(v, width);
}

proof fn lemma_strings(s: Emit, v: Seq<char>, max: nat, field: &'static str)
    requires
        max <= 0xffff,
    ensures
        s is Fault ==> emit_string(s, v, max, field) == s,
        s matches Emit::Bytes(b) ==> {
            &&& emit_string(s, v, max, field) is Bytes <==> 0 < encode_utf8(v).len() <= max
            &&& emit_string(s, v, max, field) matches Emit::Bytes(c) ==> c.len() <= b.len() + 2
                + max
        },
{
    lemma_be_len(encode_utf8(v).len(), 2);
}

proof fn lemma_options(s: Emit, v: Option<u64>)
    ensures
        s is Fault ==> emit_option_u64(s, v) == s,
        s matches Emit::Bytes(b) ==> emit_option_u64(s, v) matches Emit::Bytes(c) && c.len()
            <= b.len() + 9,
{
    if let Some(n) = v {
        lemma_numbers(emit_u8(s, 1), n as nat, 8);
    }
}

/// A greeting is sent exactly where it names a source and says who speaks.
pub proof fn greetings_are_sent(v: HelloModel)
    ensures
        encoded(MessageModel::Hello(v)) is Ok <==> may_travel(MessageModel::Hello(v)),
{
    let s = Emit::Bytes(Seq::empty());
    let s0 = emit_check(s, field_fault(hello_fault(v)));
    let s1 = emit_be(s0, v.source_id as nat, 16);
    lemma_numbers(s0, v.source_id as nat, 16);
    let s2 = emit_string(s1, v.node_id, 128, "node_id");
    lemma_strings(s1, v.node_id, 128, "node_id");
    let s3 = emit_string(s2, v.client_version, 64, "client_version");
    lemma_strings(s2, v.client_version, 64, "client_version");
    lemma_numbers(s3, v.capabilities as nat, 8);
    assert(emit_payload(s, MessageModel::Hello(v)) == emit_be(s3, v.capabilities as nat, 8));
}

/// A flush is sent exactly where it names a source, and a question for the health always.
pub proof fn flushes_are_sent(v: FlushRequest, q: HealthRequest)
    ensures
        encoded(MessageModel::Flush(v)) is Ok <==> v.source_id != 0,
        encoded(MessageModel::Health(q)) is Ok,
{
    let s = Emit::Bytes(Seq::empty());
    let s0 = emit_check(s, field_fault(flush_fault(v)));
    let s1 = emit_be(s0, v.source_id as nat, 16);
    lemma_numbers(s0, v.source_id as nat, 16);
    lemma_numbers(s1, v.through_sequence as nat, 8);
    assert(emit_payload(s, MessageModel::Flush(v)) == emit_be(s1, v.through_sequence as nat, 8));
    lemma_numbers(s, q.nonce as nat, 8);
    assert(emit_payload(s, MessageModel::Health(q)) == emit_be(s, q.nonce as nat, 8));
}

/// A greeting is answered in the version of this protocol and no other, and an error is sent
/// exactly where it has a text that is not too long.
pub proof fn greetings_and_errors_are_answered(v: HelloReplyModel, e: ErrorModel)
    requires
        v.session_id.len() == 16,
    ensures
        encoded(MessageModel::HelloReply(v)) is Ok <==> v.selected_version == 1,
        encoded(MessageModel::Error(e)) is Ok <==> 0 < encode_utf8(e.message).len() <= 512,
{
    let s = Emit::Bytes(Seq::empty());
    let s0 = emit_check(s, version_fault(v.selected_version));
    let s1 = emit_be(s0, v.selected_version as nat, 2);
    lemma_numbers(s0, v.selected_version as nat, 2);
    let s2 = emit_raw(s1, v.session_id);
    lemma_numbers(s2, bits_of_i64(v.server_time_micros), 8);
    assert(emit_payload(s, MessageModel::HelloReply(v)) == emit_i64(s2, v.server_time_micros));
    let t = emit_bool(emit_u8(s, error_tag(e.code)), e.retryable);
    lemma_strings(t, e.message, 512, "error message");
    assert(emit_payload(s, MessageModel::Error(e)) == emit_string(
        t,
        e.message,
        512,
        "error message",
    ));
}

/// An acknowledgement is sent exactly where it names a source.
#[verifier::spinoff_prover]
pub proof fn acknowledgements_are_sent(v: Ack)
    ensures
        encoded(MessageModel::Ack(v)) is Ok <==> v.source_id != 0,
{
    let s = Emit::Bytes(Seq::empty());
    let s0 = emit_u8(emit_check(s, field_fault(ack_fault(v))), ack_kind_tag(v.kind));
    let s1 = emit_be(s0, v.source_id as nat, 16);
    lemma_numbers(s0, v.source_id as nat, 16);
    let s2 = emit_be(s1, v.sequence as nat, 8);
    lemma_numbers(s1, v.sequence as nat, 8);
    let s3 = emit_be(s2, v.commit_id as nat, 16);
    lemma_numbers(s2, v.commit_id as nat, 16);
    let s4 = emit_option_u64(s3, v.accepted_through_sequence);
    lemma_options(s3, v.accepted_through_sequence);
    let s5 = emit_option_u64(s4, v.durable_through_sequence);
    lemma_options(s4, v.durable_through_sequence);
    let s6 = emit_bool(emit_bool(s5, v.durable), v.deduplicated);
    let s7 = emit_be(s6, v.frame_offset as nat, 8);
    lemma_numbers(s6, v.frame_offset as nat, 8);
    let s8 = emit_be(s7, v.records as nat, 4);
    lemma_numbers(s7, v.records as nat, 4);
    let s9 = emit_be(s8, v.points as nat, 4);
    lemma_numbers(s8, v.points as nat, 4);
    lemma_numbers(s9, v.bytes_written as nat, 8);
    assert(emit_payload(s, MessageModel::Ack(v)) == emit_be(s9, v.bytes_written as nat, 8));
}

/// The health is told exactly where the answer names a source, says a queue length that
/// there can be, and a policy that ever syncs.
#[verifier::spinoff_prover]
pub proof fn health_is_sent(v: HealthResponse)
    ensures
        encoded(MessageModel::HealthReply(v)) is Ok <==> may_travel(MessageModel::HealthReply(v)),
{
    let s = Emit::Bytes(Seq::empty());
    let s0 = emit_check(s, field_fault(queue_fault(v.queue_entries)));
    let s1 = emit_be(s0, v.nonce as nat, 8);
    lemma_numbers(s0, v.nonce as nat, 8);
    let s2 = emit_check(s1, field_fault(source_fault(v.source_id)));
    let s3 = emit_be(s2, v.source_id as nat, 16);
    lemma_numbers(s2, v.source_id as nat, 16);
    let s4 = emit_u8(s3, status_tag(v.status));
    let s5 = emit_be(s4, v.queue_entries as nat, 4);
    lemma_numbers(s4, v.queue_entries as nat, 4);
    let s6 = emit_option_u64(s5, v.accepted_through_sequence);
    lemma_options(s5, v.accepted_through_sequence);
    let s7 = emit_option_u64(s6, v.durable_through_sequence);
    lemma_options(s6, v.durable_through_sequence);
    let s8 = emit_be(s7, v.overload_count as nat, 8);
    lemma_numbers(s7, v.overload_count as nat, 8);
    let s9 = emit_be(s8, v.protocol_error_count as nat, 8);
    lemma_numbers(s8, v.protocol_error_count as nat, 8);
    let s10 = emit_be(s9, v.database_bytes as nat, 8);
    lemma_numbers(s9, v.database_bytes as nat, 8);
    let s11 = emit_be(s10, v.database_points as nat, 8);
    lemma_numbers(s10, v.database_points as nat, 8);
    let s12 = emit_be(s11, v.database_commits as nat, 8);
    lemma_numbers(s11, v.database_commits as nat, 8);
    let s13 = emit_be(s12, v.recovered_tail_bytes as nat, 8);
    lemma_numbers(s12, v.recovered_tail_bytes as nat, 8);
    let s14 = SyncPolicy::emit(s13, v.sync_policy);
    assert(s13 is Fault ==> s14 == s13);
    assert(s13 matches Emit::Bytes(b) ==> {
        &&& s14 is Bytes <==> v.sync_policy != SyncPolicy::EveryBytes(0)
        &&& s14 matches Emit::Bytes(c) ==> c.len() == b.len() + 9
    }) by {
        lemma_be_len(0, 8);
        if let SyncPolicy::EveryBytes(n) = v.sync_policy {
            lemma_be_len(n as nat, 8);
        }
    }
    assert(emit_payload(s, MessageModel::HealthReply(v)) == emit_bool(s14, v.last_ack_durable));
}

/// A batch is sent only where it holds what it needs.
pub proof fn batches_are_sent(v: BatchModel)
    ensures
        encoded(MessageModel::CommitBatch(v)) is Ok ==> batch_needs(v),
{
    batches_are_valid_where_nothing_is_missing(v);
    let s = emit_check(Emit::Bytes(Seq::empty()), field_fault(batch_fault(v)));
    if batch_fault(v) is Some {
        lemma_all_faults_stay::<Entity>(Seq::empty(), v.entities);
        lemma_all_faults_stay::<Relation>(Seq::empty(), v.relations);
        lemma_all_faults_stay::<SeriesDefinition>(Seq::empty(), v.series);
        lemma_all_faults_stay::<Run>(Seq::empty(), v.runs);
        lemma_all_faults_stay::<Plan>(Seq::empty(), v.plans);
        lemma_all_faults_stay::<Point>(Seq::empty(), v.points);
        assert(s is Fault);
        assert(emit_batch(Emit::Bytes(Seq::empty()), v) == s);
        assert(emit_payload(Emit::Bytes(Seq::empty()), MessageModel::CommitBatch(v)) == s);
    }
}

/// Only what may travel is taken.
pub proof fn messages_are_taken_where_nothing_is_missing(frame: Seq<u8>)
    ensures
        decoded(frame) matches Ok(m) ==> match m {
            MessageModel::Hello(v) => v.source_id != 0,
            MessageModel::CommitBatch(v) => batch_needs(v),
            MessageModel::Flush(v) => v.source_id != 0,
            MessageModel::Health(_) => true,
            MessageModel::HelloReply(v) => v.selected_version == 1,
            MessageModel::Ack(v) => v.source_id != 0,
            MessageModel::HealthReply(v) => v.source_id != 0 && v.queue_entries <= 65_536,
            MessageModel::Error(_) => true,
        },
{
    if let Ok(m) = decoded(frame) {
        if let MessageModel::CommitBatch(v) = m {
            batches_are_valid_where_nothing_is_missing(v);
        }
    }
}

// Frames.

/// Whether a frame is whole: it starts with `FTWS`, version 1, a kind that there is and a
/// zero, and is as long as it says, no longer than 4 MiB, and ends with the checksum of all
/// that stands before.
pub open spec fn whole_frame(frame: Seq<u8>) -> bool {
    let n = frame.len() as int;
    &&& 16 <= n <= 4 * 1024 * 1024
    &&& frame[0] == 0x46 && frame[1] == 0x54 && frame[2] == 0x57 && frame[3] == 0x53
    &&& from_be(frame.subrange(4, 6)) as u16 == 1
    &&& 1 <= frame[6] <= 4 || 128 <= frame[6] <= 131
    &&& frame[7] == 0
    &&& from_be(frame.subrange(8, 12)) == n - 16
    &&& from_be(frame.subrange(n - 4, n)) as u32 == crc32_of(frame.subrange(0, n - 4))
}

/// Whether a header is right, and the payload that it declares fits in a frame.
spec fn right_header(frame: Seq<u8>) -> bool {
    &&& frame.len() >= 12
    &&& frame[0] == 0x46 && frame[1] == 0x54 && frame[2] == 0x57 && frame[3] == 0x53
    &&& from_be(frame.subrange(4, 6)) as u16 == 1
    &&& 1 <= frame[6] <= 4 || 128 <= frame[6] <= 131
    &&& frame[7] == 0
    &&& from_be(frame.subrange(8, 12)) + 16 <= 4 * 1024 * 1024
}

proof fn lemma_header(frame: Seq<u8>)
    ensures
        header(frame) is Ok <==> right_header(frame),
        header(frame) matches Ok(found) ==> found == (
            frame[6],
            from_be(frame.subrange(8, 12)) + 16,
        ),
{
    if frame.len() >= 12 {
        let front = frame.subrange(0, 4);
        assert(front[0] == frame[0] && front[1] == frame[1] && front[2] == frame[2] && front[3]
            == frame[3]);
        let magic = seq![0x46u8, 0x54u8, 0x57u8, 0x53u8];
        if frame[0] == 0x46 && frame[1] == 0x54 && frame[2] == 0x57 && frame[3] == 0x53 {
            assert(front =~= magic);
        }
    }
}

/// Only a whole frame is taken, and what it then gives is what its payload says.
#[verifier::spinoff_prover]
#[verifier::rlimit(60)]
pub proof fn whole_frames_are_taken(frame: Seq<u8>)
    ensures
        decoded(frame) is Ok ==> whole_frame(frame),
        whole_frame(frame) ==> decoded(frame) == payload_message(
            frame[6],
            frame.subrange(12, frame.len() - 4),
        ),
{
    lemma_header(frame);
}

/// A frame that is sent is whole, and names the kind of its message.
pub proof fn sent_frames_are_whole(m: MessageModel, frame: Seq<u8>)
    requires
        message_ordered(m),
        encoded(m) == Ok::<Seq<u8>, ProtocolError>(frame),
    ensures
        whole_frame(frame),
        frame[6] == match m {
            MessageModel::Hello(_) => 1u8,
            MessageModel::CommitBatch(_) => 2,
            MessageModel::Flush(_) => 3,
            MessageModel::Health(_) => 4,
            MessageModel::HelloReply(_) => 128,
            MessageModel::Ack(_) => 129,
            MessageModel::HealthReply(_) => 130,
            MessageModel::Error(_) => 131,
        },
{
    frame_round_trip(m, frame);
    whole_frames_are_taken(frame);
    frame_is_bounded(m, frame);
    assert(frame.subrange(0, 12)[6] == frame[6]);
}

/// What is still to be read of a frame: the twelve bytes of its header first, then what the
/// header declares. Nothing more is read of a frame that is whole.
pub proof fn frames_are_read_as_declared(received: Seq<u8>)
    ensures
        received.len() < 12 ==> wanted(received) == 12 - received.len(),
        whole_frame(received) ==> wanted(received) == 0,
        received.len() >= 12 && header(received) is Ok && received.len() < 16 + from_be(
            received.subrange(8, 12),
        ) ==> wanted(received) == 16 + from_be(received.subrange(8, 12)) - received.len(),
        header(received) is Ok ==> from_be(received.subrange(8, 12)) <= 4 * 1024 * 1024 - 16,
        received.len() >= 12 && header(received) is Err ==> wanted(received) == 0,
{
    lemma_header(received);
}

/// The numbers by which the choices of the protocol travel.
pub proof fn choices_have_their_numbers(status: HealthStatus, code: ErrorCode, kind: AckKind)
    ensures
        status_tag(status) == match status {
            HealthStatus::Healthy => 1u8,
            HealthStatus::Degraded => 2,
            HealthStatus::Unavailable => 3,
        },
        error_tag(code) == match code {
            ErrorCode::InvalidRequest => 1u8,
            ErrorCode::Overloaded => 2,
            ErrorCode::Internal => 3,
            ErrorCode::Unsupported => 4,
            ErrorCode::IdempotencyConflict => 5,
        },
        ack_kind_tag(kind) == match kind {
            AckKind::CommitBatch => 1u8,
            AckKind::Flush => 2,
        },
{
}

} // verus!
