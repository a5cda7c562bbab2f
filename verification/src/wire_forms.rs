//! A value has one wire form: bytes that are read as a value are those that it is
//! written as.
#[allow(unused_imports)]
use crate::bytes::{
    be, bits_of_i64, from_be, i64_of_bits, lemma_from_be_round_trip, lemma_pow256_values,
};
#[allow(unused_imports)]
use crate::checksum::crc32_of;
#[allow(unused_imports)]
use crate::model::{
    plan_fault, series_fault, Entity, EntityModel, FloatBits, Plan, PlanModel, Point, PolicyModel,
    PropertyModel, PropertyValue, Relation, RelationModel, ResolutionModel, RollupPolicy,
    RollupTier, Run, RunModel, SeriesDefinition, SeriesModel, TierModel,
};
#[allow(unused_imports)]
use crate::shadow_protocol::{
    decoded, emit_batch, emit_collection, emit_payload, encoded, frame_body, frame_bytes, header,
    kind_of, known_kind, magic, payload_message, scan_payload, scan_ack_kind, scan_batch, scan_collection, scan_error,
    scan_points, version_fault, Ack, ErrorResponse, FlushRequest, HealthRequest, HelloRequest,
    HelloResponse, ProtocolError, ACK_RESPONSE, COMMIT_BATCH_REQUEST, FLUSH_REQUEST,
    HEALTH_REQUEST, HEALTH_RESPONSE, HELLO_REQUEST, HELLO_RESPONSE, MAX_BATCH_POINTS,
    MAX_CLIENT_VERSION_BYTES, MAX_ERROR_TEXT_BYTES, MAX_FRAME_BYTES, MAX_KEY_BYTES,
    MAX_METADATA_RECORDS,
    MAX_NODE_ID_BYTES, MAX_PROPERTIES, MAX_ROLLUP_TIERS, MAX_TEXT_BYTES, MessageModel, POINT_BYTES, PROTOCOL_VERSION,
};
#[allow(unused_imports)]
use crate::wire::{
    emit_be, emit_bool, emit_check, emit_float, emit_i64, emit_option_float, emit_option_i64,
    emit_option_u128, emit_option_u64, emit_raw, emit_string, emit_text, emit_u8, scan_be,
    scan_bool, scan_check, scan_count, scan_float, scan_i64, scan_option_float, scan_option_i64,
    scan_option_u128, scan_option_u64, scan_raw, scan_string, scan_text, scan_u128, scan_u16,
    scan_u32, scan_u64, scan_u8, scan_utf8, Emit, Scan,
};
#[allow(unused_imports)]
use crate::wire_records::{
    emit_all, emit_entries, emit_map, entity_number, field_fault, lemma_all_faults_stay,
    lemma_map_faults_stay, relation_number, run_number, scan_all, scan_calendar_unit, scan_entries,
    scan_map, scan_plan_status, scan_run_kind, scan_run_status, scan_series_semantics, unless,
    WireRecord,
};
use vstd::prelude::*;
#[allow(unused_imports)]
use vstd::utf8::*;

verus! {

/// Whether a position lies in the input.
pub open spec fn within(b: Seq<u8>, s: Scan) -> bool {
    s matches Scan::At(p) && 0 <= p <= b.len()
}

/// The input up to a position, as if it had been written.
pub open spec fn read_so_far(b: Seq<u8>, s: Scan) -> Emit {
    Emit::Bytes(b.take(s->At_0))
}

/// Whether what was written at `s` is what was read on the way to `after`.
pub open spec fn same_form(b: Seq<u8>, s: Scan, after: Scan, written: Emit) -> bool {
    within(b, s) && after is At ==> within(b, after) && written == read_so_far(b, after)
}

/// A value that has one wire form.
pub trait OneForm: WireRecord {
    proof fn one_form(b: Seq<u8>, s: Scan)
        ensures
            same_form(
                b,
                s,
                Self::scan(b, s).1,
                Self::emit(read_so_far(b, s), Self::scan(b, s).0),
            ),
    ;
}

pub proof fn form_raw(b: Seq<u8>, s: Scan, n: nat)
    ensures
        same_form(b, s, scan_raw(b, s, n).1, emit_raw(read_so_far(b, s), scan_raw(b, s, n).0)),
        within(b, s) && scan_raw(b, s, n).1 is At ==> scan_raw(b, s, n).0.len() == n,
{
    if within(b, s) && scan_raw(b, s, n).1 is At {
        let p = s->At_0;
        assert(b.take(p) + b.subrange(p, p + n) =~= b.take(p + n));
    }
}

pub proof fn form_u8(b: Seq<u8>, s: Scan)
    ensures
        same_form(b, s, scan_u8(b, s).1, emit_u8(read_so_far(b, s), scan_u8(b, s).0)),
{
    form_raw(b, s, 1);
    if within(b, s) && scan_u8(b, s).1 is At {
        assert(scan_raw(b, s, 1).0 =~= seq![scan_u8(b, s).0]);
    }
}

pub proof fn form_be(b: Seq<u8>, s: Scan, width: nat)
    ensures
        same_form(b, s, scan_be(b, s, width).1, emit_be(
            read_so_far(b, s),
            scan_be(b, s, width).0,
            width,
        )),
        within(b, s) && scan_be(b, s, width).1 is At ==> scan_be(b, s, width).0
            < crate::bytes::pow256(width),
{
    form_raw(b, s, width);
    lemma_from_be_round_trip(scan_raw(b, s, width).0);
}

pub proof fn form_u16(b: Seq<u8>, s: Scan)
    ensures
        same_form(b, s, scan_u16(b, s).1, emit_be(read_so_far(b, s), scan_u16(b, s).0 as nat, 2)),
{
    form_be(b, s, 2);
    lemma_pow256_values();
}

pub proof fn form_u32(b: Seq<u8>, s: Scan)
    ensures
        same_form(b, s, scan_u32(b, s).1, emit_be(read_so_far(b, s), scan_u32(b, s).0 as nat, 4)),
{
    form_be(b, s, 4);
    lemma_pow256_values();
}

pub proof fn form_u64(b: Seq<u8>, s: Scan)
    ensures
        same_form(b, s, scan_u64(b, s).1, emit_be(read_so_far(b, s), scan_u64(b, s).0 as nat, 8)),
{
    form_be(b, s, 8);
    lemma_pow256_values();
}

pub proof fn form_u128(b: Seq<u8>, s: Scan)
    ensures
        same_form(
            b,
            s,
            scan_u128(b, s).1,
            emit_be(read_so_far(b, s), scan_u128(b, s).0 as nat, 16),
        ),
{
    form_be(b, s, 16);
    lemma_pow256_values();
}

pub proof fn form_i64(b: Seq<u8>, s: Scan)
    ensures
        same_form(b, s, scan_i64(b, s).1, emit_i64(read_so_far(b, s), scan_i64(b, s).0)),
{
    form_be(b, s, 8);
    lemma_pow256_values();
    assert(scan_be(b, s, 8).0 < 0x1_0000_0000_0000_0000 ==> bits_of_i64(
        i64_of_bits(scan_be(b, s, 8).0),
    ) == scan_be(b, s, 8).0);
}

pub proof fn form_bool(b: Seq<u8>, s: Scan, field: &'static str)
    ensures
        same_form(b, s, scan_bool(b, s, field).1, emit_bool(
            read_so_far(b, s),
            scan_bool(b, s, field).0,
        )),
{
    form_u8(b, s);
}

pub proof fn form_float(b: Seq<u8>, s: Scan, field: &'static str)
    ensures
        same_form(b, s, scan_float(b, s, field).1, emit_float(
            read_so_far(b, s),
            scan_float(b, s, field).0,
            field,
        )),
{
    form_u64(b, s);
}

pub proof fn form_text(b: Seq<u8>, s: Scan, max: nat, field: &'static str)
    ensures
        same_form(b, s, scan_text(b, s, max, field).1, emit_text(
            read_so_far(b, s),
            scan_text(b, s, max, field).0,
            max,
            field,
        )),
{
    let (n, s1) = scan_u16(b, s);
    form_u16(b, s);
    form_raw(b, s1, n as nat);
    let bytes = scan_raw(b, s1, n as nat).0;
    if valid_utf8(bytes) {
        decode_utf8_encode_utf8(bytes);
    }
}

pub proof fn form_string(b: Seq<u8>, s: Scan, max: nat, field: &'static str)
    ensures
        same_form(b, s, scan_string(b, s, max, field).1, emit_string(
            read_so_far(b, s),
            scan_string(b, s, max, field).0,
            max,
            field,
        )),
{
    let (n, s1) = scan_u16(b, s);
    form_u16(b, s);
    form_raw(b, s1, n as nat);
    let bytes = scan_raw(b, s1, n as nat).0;
    if valid_utf8(bytes) {
        decode_utf8_encode_utf8(bytes);
    }
}

pub proof fn form_option_u128(b: Seq<u8>, s: Scan, field: &'static str)
    ensures
        same_form(b, s, scan_option_u128(b, s, field).1, emit_option_u128(
            read_so_far(b, s),
            scan_option_u128(b, s, field).0,
        )),
{
    form_bool(b, s, field);
    form_u128(b, scan_bool(b, s, field).1);
}

pub proof fn form_option_u64(b: Seq<u8>, s: Scan, field: &'static str)
    ensures
        same_form(b, s, scan_option_u64(b, s, field).1, emit_option_u64(
            read_so_far(b, s),
            scan_option_u64(b, s, field).0,
        )),
{
    form_bool(b, s, field);
    form_u64(b, scan_bool(b, s, field).1);
}

pub proof fn form_option_i64(b: Seq<u8>, s: Scan, field: &'static str)
    ensures
        same_form(b, s, scan_option_i64(b, s, field).1, emit_option_i64(
            read_so_far(b, s),
            scan_option_i64(b, s, field).0,
        )),
{
    form_bool(b, s, field);
    form_i64(b, scan_bool(b, s, field).1);
}

pub proof fn form_option_float(b: Seq<u8>, s: Scan, field: &'static str)
    ensures
        same_form(b, s, scan_option_float(b, s, field).1, emit_option_float(
            read_so_far(b, s),
            scan_option_float(b, s, field).0,
            field,
        )),
{
    form_bool(b, s, field);
    form_float(b, scan_bool(b, s, field).1, field);
}

pub proof fn form_count(b: Seq<u8>, s: Scan, max: nat, field: &'static str)
    ensures
        same_form(b, s, scan_count(b, s, max, field).1, emit_be(
            read_so_far(b, s),
            scan_count(b, s, max, field).0,
            4,
        )),
        within(b, s) && scan_count(b, s, max, field).1 is At ==> scan_count(b, s, max, field).0
            <= max,
{
    form_u32(b, s);
}

/// A sequence of records has one form.
pub proof fn form_all<T: OneForm>(b: Seq<u8>, s: Scan, n: nat)
    ensures
        scan_all::<T>(b, s, n).0.len() == n,
        same_form(b, s, scan_all::<T>(b, s, n).1, emit_all::<T>(
            read_so_far(b, s),
            scan_all::<T>(b, s, n).0,
        )),
    decreases n,
{
    if n > 0 {
        form_all::<T>(b, s, (n - 1) as nat);
        let (front, s1) = scan_all::<T>(b, s, (n - 1) as nat);
        let (last, s2) = T::scan(b, s1);
        T::faults_stay(b, last);
        T::one_form(b, s1);
        assert(front.push(last).drop_last() =~= front);
    }
}

proof fn form_entries<T: OneForm>(
    b: Seq<u8>,
    s: Scan,
    n: nat,
    key_field: &'static str,
    order_field: &'static str,
)
    ensures
        scan_entries::<T>(b, s, n, key_field, order_field).0.len() == n,
        same_form(b, s, scan_entries::<T>(b, s, n, key_field, order_field).1, emit_entries::<T>(
            read_so_far(b, s),
            scan_entries::<T>(b, s, n, key_field, order_field).0,
            key_field,
        )),
    decreases n,
{
    if n > 0 {
        form_entries::<T>(b, s, (n - 1) as nat, key_field, order_field);
        let (front, s1) = scan_entries::<T>(b, s, (n - 1) as nat, key_field, order_field);
        let (key, s2) = scan_string(b, s1, MAX_KEY_BYTES as nat, key_field);
        form_string(b, s1, MAX_KEY_BYTES as nat, key_field);
        let s3 = scan_check(
            s2,
            unless(
                front.len() == 0 || crate::text::text_less(front.last().0, key),
                order_field,
            ),
        );
        let (value, s4) = T::scan(b, s3);
        T::faults_stay(b, value);
        T::one_form(b, s3);
        assert(front.push((key, value)).drop_last() =~= front);
    }
}

/// A map has one form.
pub proof fn form_map<T: OneForm>(
    b: Seq<u8>,
    s: Scan,
    size_field: &'static str,
    count_field: &'static str,
    key_field: &'static str,
    order_field: &'static str,
)
    ensures
        same_form(b, s, scan_map::<T>(b, s, count_field, key_field, order_field).1, emit_map::<T>(
            read_so_far(b, s),
            scan_map::<T>(b, s, count_field, key_field, order_field).0,
            size_field,
            key_field,
        )),
{
    let (n, s1) = scan_count(b, s, MAX_PROPERTIES as nat, count_field);
    form_count(b, s, MAX_PROPERTIES as nat, count_field);
    form_entries::<T>(b, s1, n, key_field, order_field);
    lemma_map_faults_stay::<T>(b, Seq::empty(), size_field, count_field, key_field, order_field);
    if s1 is Fault {
        crate::wire_records::lemma_entries_fault_stays::<T>(b, Seq::empty(), key_field, order_field);
    }
}

impl OneForm for PropertyValue {
    proof fn one_form(b: Seq<u8>, s: Scan) {
        let (tag, s1) = scan_u8(b, s);
        form_u8(b, s);
        form_bool(b, s1, "property bool");
        form_i64(b, s1);
        form_float(b, s1, "property float");
        form_text(b, s1, MAX_TEXT_BYTES as nat, "property text");
    }
}

impl OneForm for FloatBits {
    proof fn one_form(b: Seq<u8>, s: Scan) {
        form_float(b, s, "objective value");
    }
}

impl OneForm for RollupTier {
    proof fn one_form(b: Seq<u8>, s: Scan) {
        let (tag, s1) = scan_u8(b, s);
        form_u8(b, s);
        if tag == 1 {
            form_i64(b, s1);
            form_option_i64(b, scan_i64(b, s1).1, "tier retention");
        } else if tag == 2 {
            let (unit, s2) = scan_calendar_unit(b, s1);
            form_u8(b, s1);
            let (name, s3) = scan_string(b, s2, MAX_KEY_BYTES as nat, "IANA timezone");
            form_string(b, s2, MAX_KEY_BYTES as nat, "IANA timezone");
            form_option_i64(b, s3, "tier retention");
        }
    }
}

impl OneForm for Entity {
    proof fn one_form(b: Seq<u8>, s: Scan) {
        let (id, s1) = scan_u128(b, s);
        form_u128(b, s);
        let (kind, s2) = scan_string(b, s1, MAX_KEY_BYTES as nat, "entity kind");
        form_string(b, s1, MAX_KEY_BYTES as nat, "entity kind");
        let (name, s3) = scan_string(b, s2, MAX_TEXT_BYTES as nat, "entity name");
        form_string(b, s2, MAX_TEXT_BYTES as nat, "entity name");
        let (parent, s4) = scan_option_u128(b, s3, "entity parent");
        form_option_u128(b, s3, "entity parent");
        let (valid_from, s5) = scan_i64(b, s4);
        form_i64(b, s4);
        let (valid_to, s6) = scan_option_i64(b, s5, "entity valid_to");
        form_option_i64(b, s5, "entity valid_to");
        let (properties, s7) = scan_map::<PropertyValue>(b, s6, "property count", "property key", "property keys");
        form_map::<PropertyValue>(b, s6, "too many properties", "property count", "property key", "property keys");
        lemma_map_faults_stay::<PropertyValue>(b, properties, "too many properties", "property count", "property key", "property keys");
    }
}

impl OneForm for Relation {
    proof fn one_form(b: Seq<u8>, s: Scan) {
        let (id, s1) = scan_u128(b, s);
        form_u128(b, s);
        let (kind, s2) = scan_string(b, s1, MAX_KEY_BYTES as nat, "relation kind");
        form_string(b, s1, MAX_KEY_BYTES as nat, "relation kind");
        let (source, s3) = scan_u128(b, s2);
        form_u128(b, s2);
        let (target, s4) = scan_u128(b, s3);
        form_u128(b, s3);
        let (valid_from, s5) = scan_i64(b, s4);
        form_i64(b, s4);
        let (valid_to, s6) = scan_option_i64(b, s5, "relation valid_to");
        form_option_i64(b, s5, "relation valid_to");
        let (properties, s7) = scan_map::<PropertyValue>(b, s6, "property count", "property key", "property keys");
        form_map::<PropertyValue>(b, s6, "too many properties", "property count", "property key", "property keys");
        lemma_map_faults_stay::<PropertyValue>(b, properties, "too many properties", "property count", "property key", "property keys");
    }
}

impl OneForm for RollupPolicy {
    proof fn one_form(b: Seq<u8>, s: Scan) {
        let (raw_retain_for_micros, s1) = scan_option_i64(b, s, "raw retention");
        form_option_i64(b, s, "raw retention");
        let (n, s2) = scan_count(b, s1, MAX_ROLLUP_TIERS as nat, "rollup tier count");
        form_count(b, s1, MAX_ROLLUP_TIERS as nat, "rollup tier count");
        let (tiers, s3) = scan_all::<RollupTier>(b, s2, n);
        form_all::<RollupTier>(b, s2, n);
        lemma_all_faults_stay::<RollupTier>(b, tiers);
    }
}

impl OneForm for SeriesDefinition {
    proof fn one_form(b: Seq<u8>, s: Scan) {
        let (id, s1) = scan_u64(b, s);
        form_u64(b, s);
        let (owner_entity, s2) = scan_option_u128(b, s1, "owner entity");
        form_option_u128(b, s1, "owner entity");
        let (owner_relation, s3) = scan_option_u128(b, s2, "owner relation");
        form_option_u128(b, s2, "owner relation");
        let (name, s4) = scan_string(b, s3, MAX_KEY_BYTES as nat, "series name");
        form_string(b, s3, MAX_KEY_BYTES as nat, "series name");
        let (physical_quantity, s5) = scan_string(b, s4, MAX_KEY_BYTES as nat, "physical quantity");
        form_string(b, s4, MAX_KEY_BYTES as nat, "physical quantity");
        let (canonical_unit, s6) = scan_string(b, s5, MAX_KEY_BYTES as nat, "canonical unit");
        form_string(b, s5, MAX_KEY_BYTES as nat, "canonical unit");
        let (semantics, s7) = scan_series_semantics(b, s6);
        form_u8(b, s6);
        let (maximum_gap_micros, s8) = scan_option_i64(b, s7, "maximum gap");
        form_option_i64(b, s7, "maximum gap");
        let (rollup_policy, s9) = RollupPolicy::scan(b, s8);
        RollupPolicy::one_form(b, s8);
        RollupPolicy::faults_stay(b, rollup_policy);
    }
}

impl OneForm for Run {
    proof fn one_form(b: Seq<u8>, s: Scan) {
        let (id, s1) = scan_u128(b, s);
        form_u128(b, s);
        let (kind, s2) = scan_run_kind(b, s1);
        form_u8(b, s1);
        let (status, s3) = scan_run_status(b, s2);
        form_u8(b, s2);
        let (created_at, s4) = scan_i64(b, s3);
        form_i64(b, s3);
        let (knowledge_time, s5) = scan_i64(b, s4);
        form_i64(b, s4);
        let (workflow, s6) = scan_string(b, s5, MAX_TEXT_BYTES as nat, "workflow");
        form_string(b, s5, MAX_TEXT_BYTES as nat, "workflow");
        let (model, s7) = scan_text(b, s6, MAX_TEXT_BYTES as nat, "model");
        form_text(b, s6, MAX_TEXT_BYTES as nat, "model");
        let (model_version, s8) = scan_text(b, s7, MAX_TEXT_BYTES as nat, "model version");
        form_text(b, s7, MAX_TEXT_BYTES as nat, "model version");
        let (parent_run, s9) = scan_option_u128(b, s8, "parent run");
        form_option_u128(b, s8, "parent run");
        let (input_snapshot, s10) = scan_option_u128(b, s9, "input snapshot");
        form_option_u128(b, s9, "input snapshot");
        let (attributes, s11) = scan_map::<PropertyValue>(b, s10, "property count", "property key", "property keys");
        form_map::<PropertyValue>(b, s10, "too many properties", "property count", "property key", "property keys");
        lemma_map_faults_stay::<PropertyValue>(b, attributes, "too many properties", "property count", "property key", "property keys");
    }
}

impl OneForm for Plan {
    proof fn one_form(b: Seq<u8>, s: Scan) {
        let (id, s1) = scan_u128(b, s);
        form_u128(b, s);
        let (run_id, s2) = scan_u128(b, s1);
        form_u128(b, s1);
        let (status, s3) = scan_plan_status(b, s2);
        form_u8(b, s2);
        let (horizon_start, s4) = scan_i64(b, s3);
        form_i64(b, s3);
        let (horizon_end, s5) = scan_i64(b, s4);
        form_i64(b, s4);
        let (resolution_micros, s6) = scan_i64(b, s5);
        form_i64(b, s5);
        let (scenario, s7) = scan_string(b, s6, MAX_TEXT_BYTES as nat, "scenario");
        form_string(b, s6, MAX_TEXT_BYTES as nat, "scenario");
        let (objective_terms, s8) = scan_map::<FloatBits>(b, s7, "objective term count", "objective key", "objective keys");
        form_map::<FloatBits>(b, s7, "too many objective terms", "objective term count", "objective key", "objective keys");
        lemma_map_faults_stay::<FloatBits>(b, objective_terms, "too many objective terms", "objective term count", "objective key", "objective keys");
        let (objective_value, s9) = scan_option_float(b, s8, "objective value");
        form_option_float(b, s8, "objective value");
        let (supersedes, s10) = scan_option_u128(b, s9, "supersedes");
        form_option_u128(b, s9, "supersedes");
        let (attributes, s11) = scan_map::<PropertyValue>(b, s10, "property count", "property key", "property keys");
        form_map::<PropertyValue>(b, s10, "too many properties", "property count", "property key", "property keys");
        lemma_map_faults_stay::<PropertyValue>(b, attributes, "too many properties", "property count", "property key", "property keys");
    }
}

impl OneForm for Point {
    proof fn one_form(b: Seq<u8>, s: Scan) {
        let (series_id, s1) = scan_u64(b, s);
        form_u64(b, s);
        let (valid_time, s2) = scan_i64(b, s1);
        form_i64(b, s1);
        let (valid_time_end, s3) = scan_i64(b, s2);
        form_i64(b, s2);
        let (knowledge_time, s4) = scan_i64(b, s3);
        form_i64(b, s3);
        let (change_time, s5) = scan_i64(b, s4);
        form_i64(b, s4);
        let (run_id, s6) = scan_u128(b, s5);
        form_u128(b, s5);
        let (value, s7) = scan_u64(b, s6);
        form_u64(b, s6);
        let (quality, s8) = scan_u32(b, s7);
        form_u32(b, s7);
        let (flags, s9) = scan_u32(b, s8);
        form_u32(b, s8);
    }
}

impl OneForm for HelloRequest {
    proof fn one_form(b: Seq<u8>, s: Scan) {
        let (source_id, s1) = scan_u128(b, s);
        form_u128(b, s);
        let (node_id, s2) = scan_string(b, s1, MAX_NODE_ID_BYTES as nat, "node_id");
        form_string(b, s1, MAX_NODE_ID_BYTES as nat, "node_id");
        let (client_version, s3) = scan_string(b, s2, MAX_CLIENT_VERSION_BYTES as nat, "client_version");
        form_string(b, s2, MAX_CLIENT_VERSION_BYTES as nat, "client_version");
        let (capabilities, s4) = scan_u64(b, s3);
        form_u64(b, s3);
    }
}

impl OneForm for FlushRequest {
    proof fn one_form(b: Seq<u8>, s: Scan) {
        let (source_id, s1) = scan_u128(b, s);
        form_u128(b, s);
        let (through_sequence, s2) = scan_u64(b, s1);
        form_u64(b, s1);
    }
}

impl OneForm for HealthRequest {
    proof fn one_form(b: Seq<u8>, s: Scan) {
        let (nonce, s1) = scan_u64(b, s);
        form_u64(b, s);
    }
}

impl OneForm for Ack {
    proof fn one_form(b: Seq<u8>, s: Scan) {
        let (kind, s1) = scan_ack_kind(b, s);
        form_u8(b, s);
        let (source_id, s2) = scan_u128(b, s1);
        form_u128(b, s1);
        let (sequence, s3) = scan_u64(b, s2);
        form_u64(b, s2);
        let (commit_id, s4) = scan_u128(b, s3);
        form_u128(b, s3);
        let (accepted_through_sequence, s5) = scan_option_u64(b, s4, "accepted watermark");
        form_option_u64(b, s4, "accepted watermark");
        let (durable_through_sequence, s6) = scan_option_u64(b, s5, "durable watermark");
        form_option_u64(b, s5, "durable watermark");
        let (durable, s7) = scan_bool(b, s6, "durable");
        form_bool(b, s6, "durable");
        let (deduplicated, s8) = scan_bool(b, s7, "deduplicated");
        form_bool(b, s7, "deduplicated");
        let (frame_offset, s9) = scan_u64(b, s8);
        form_u64(b, s8);
        let (records, s10) = scan_u32(b, s9);
        form_u32(b, s9);
        let (points, s11) = scan_u32(b, s10);
        form_u32(b, s10);
        let (bytes_written, s12) = scan_u64(b, s11);
        form_u64(b, s11);
    }
}

impl OneForm for ErrorResponse {
    proof fn one_form(b: Seq<u8>, s: Scan) {
        let (code, s1) = scan_error(b, s);
        form_u8(b, s);
        let (retryable, s2) = scan_bool(b, s1, "retryable");
        form_bool(b, s1, "retryable");
        let (message, s3) = scan_string(b, s2, MAX_ERROR_TEXT_BYTES as nat, "error message");
        form_string(b, s2, MAX_ERROR_TEXT_BYTES as nat, "error message");
    }
}

impl OneForm for HelloResponse {
    proof fn one_form(b: Seq<u8>, s: Scan) {
        let (selected_version, s1) = scan_u16(b, s);
        form_u16(b, s);
        let s2 = scan_check(s1, version_fault(selected_version));
        let (session_id, s3) = scan_raw(b, s2, 16);
        form_raw(b, s2, 16);
        let (server_time_micros, s4) = scan_i64(b, s3);
        form_i64(b, s3);
    }
}

/// A counted sequence of records has one form.
proof fn form_collection<T: OneForm>(b: Seq<u8>, s: Scan, max: nat)
    ensures
        same_form(b, s, scan_collection::<T>(b, s, max).1, emit_collection::<T>(
            read_so_far(b, s),
            scan_collection::<T>(b, s, max).0,
        )),
        s is Fault ==> scan_collection::<T>(b, s, max).1 == s,
{
    let (n, s1) = scan_count(b, s, max, "metadata record count");
    form_count(b, s, max, "metadata record count");
    form_all::<T>(b, s1, n);
    lemma_all_faults_stay::<T>(b, Seq::empty());
}

proof fn form_points(b: Seq<u8>, s: Scan)
    ensures
        same_form(b, s, scan_points(b, s).1, emit_collection::<Point>(
            read_so_far(b, s),
            scan_points(b, s).0,
        )),
        s is Fault ==> scan_points(b, s).1 == s,
{
    let (n, s1) = scan_count(b, s, MAX_BATCH_POINTS as nat, "too many points");
    form_count(b, s, MAX_BATCH_POINTS as nat, "too many points");
    let s2 = scan_check(
        s1,
        unless(b.len() - s1->At_0 == n * POINT_BYTES, "point payload length"),
    );
    form_all::<Point>(b, s2, n);
    lemma_all_faults_stay::<Point>(b, Seq::empty());
}

#[verifier::spinoff_prover]
proof fn form_batch(b: Seq<u8>, s: Scan)
    ensures
        same_form(b, s, scan_batch(b, s).1, emit_batch(read_so_far(b, s), scan_batch(b, s).0)),
{
    let (source_id, s1) = scan_u128(b, s);
    form_u128(b, s);
    let (sequence, s2) = scan_u64(b, s1);
    form_u64(b, s1);
    let (commit_id, s3) = scan_u128(b, s2);
    form_u128(b, s2);
    let room = MAX_METADATA_RECORDS as nat;
    let (entities, s4) = scan_collection::<Entity>(b, s3, room);
    form_collection::<Entity>(b, s3, room);
    let room = (room - entities.len()) as nat;
    let (relations, s5) = scan_collection::<Relation>(b, s4, room);
    form_collection::<Relation>(b, s4, room);
    let room = (room - relations.len()) as nat;
    let (series, s6) = scan_collection::<SeriesDefinition>(b, s5, room);
    form_collection::<SeriesDefinition>(b, s5, room);
    let room = (room - series.len()) as nat;
    let (runs, s7) = scan_collection::<Run>(b, s6, room);
    form_collection::<Run>(b, s6, room);
    let room = (room - runs.len()) as nat;
    let (plans, s8) = scan_collection::<Plan>(b, s7, room);
    form_collection::<Plan>(b, s7, room);
    form_points(b, s8);
}

proof fn form_message<T: OneForm>(payload: Seq<u8>)
    requires
        T::scan(payload, Scan::At(0)).1 == Scan::At(payload.len() as int),
    ensures
        T::emit(Emit::Bytes(Seq::empty()), T::scan(payload, Scan::At(0)).0) == Emit::Bytes(payload),
{
    assert(payload.take(0) =~= Seq::empty());
    assert(payload.take(payload.len() as int) =~= payload);
    T::one_form(payload, Scan::At(0));
}

/// A payload that is read as a message is the one payload of that message. A health reply
/// has a short form too, which is read but not written.
#[verifier::spinoff_prover]
#[verifier::rlimit(60)]
pub proof fn payloads_have_one_form(kind: u8, payload: Seq<u8>, m: MessageModel)
    requires
        known_kind(kind),
        kind != HEALTH_RESPONSE,
        payload_message(kind, payload) == Ok::<MessageModel, ProtocolError>(m),
    ensures
        kind_of(m) == kind,
        emit_payload(Emit::Bytes(Seq::empty()), m) == Emit::Bytes(payload),
{
    assert(scan_payload(kind, payload, Scan::At(0)) == (m, Scan::At(payload.len() as int)));
    match m {
        MessageModel::Hello(_) => {
            form_message::<HelloRequest>(payload);
        },
        MessageModel::CommitBatch(_) => {
            assert(payload.take(0) =~= Seq::empty());
            assert(payload.take(payload.len() as int) =~= payload);
            form_batch(payload, Scan::At(0));
        },
        MessageModel::Flush(_) => {
            form_message::<FlushRequest>(payload);
        },
        MessageModel::Health(_) => {
            form_message::<HealthRequest>(payload);
        },
        MessageModel::HelloReply(_) => {
            form_message::<HelloResponse>(payload);
        },
        MessageModel::Ack(_) => {
            form_message::<Ack>(payload);
        },
        MessageModel::HealthReply(_) => {},
        MessageModel::Error(_) => {
            form_message::<ErrorResponse>(payload);
        },
    }
}

/// A frame is its header, its payload and the checksum over both.
proof fn lemma_frame_parts(frame: Seq<u8>, kind: u8, total: int)
    requires
        header(frame) == Ok::<(u8, nat), ProtocolError>((kind, total as nat)),
        frame.len() == total,
        from_be(frame.subrange(total - 4, total)) as u32 == crc32_of(frame.subrange(0, total - 4)),
    ensures
        16 <= total <= MAX_FRAME_BYTES,
        known_kind(kind),
        frame[6] == kind,
        frame == frame_bytes(kind, frame.subrange(12, total - 4)),
{
    let payload = frame.subrange(12, total - 4);
    let version = frame.subrange(4, 6);
    let length = frame.subrange(8, 12);
    let sum = frame.subrange(total - 4, total);
    lemma_from_be_round_trip(version);
    lemma_from_be_round_trip(length);
    lemma_from_be_round_trip(sum);
    lemma_pow256_values();
    assert(frame.subrange(0, total - 4) =~= frame_body(kind, payload)) by {
        assert(frame.subrange(0, 4) == magic());
        assert(version == be(PROTOCOL_VERSION as nat, 2));
        assert(length == be(payload.len(), 4));
        assert(frame.subrange(0, total - 4) =~= frame.subrange(0, 4) + version + seq![kind, 0u8]
            + length + payload);
    }
    assert(frame =~= frame.subrange(0, total - 4) + sum);
}

/// A frame that is accepted is the one frame of its message: presence bytes are 0 or 1, the
/// keys of maps ascend, and no byte is slack. A health reply has a short form too, which is
/// read but not written.
#[verifier::spinoff_prover]
#[verifier::rlimit(60)]
pub proof fn frames_have_one_form(frame: Seq<u8>, m: MessageModel)
    requires
        decoded(frame) == Ok::<MessageModel, ProtocolError>(m),
        frame[6] != HEALTH_RESPONSE,
    ensures
        encoded(m) == Ok::<Seq<u8>, ProtocolError>(frame),
{
    let (kind, total) = header(frame)->Ok_0;
    lemma_frame_parts(frame, kind, total as int);
    payloads_have_one_form(kind, frame.subrange(12, total - 4), m);
}

} // verus!
