//! When two values of the energy model count as the same.
//!
//! Numbers are compared as IEEE-754 doubles: the two zeros are the same number,
//! and a NaN is not the same as anything.
use crate::model::{
    Entity, EntityId, FloatBits, Plan, Point, Properties, PropertyValue, Relation, RelationId,
    RollupResolution, RollupTier, Run, RunId, SeriesDefinition,
};
#[allow(unused_imports)]
use crate::model::{
    same_number, EntityModel, PlanModel, PropertiesModel, PropertyModel, RelationModel, RunModel,
    SeriesModel,
};
use crate::text::same_text;
use crate::text_map::TextMap;
use vstd::prelude::*;

verus! {

/// Whether two doubles compare as equal.
pub fn numbers_are_same(a: FloatBits, b: FloatBits) -> (yes: bool)
    ensures
        yes == same_number(a, b),
{
    a == b
}

pub open spec fn same_optional_number(a: Option<FloatBits>, b: Option<FloatBits>) -> bool {
    match (a, b) {
        (Some(x), Some(y)) => same_number(x, y),
        (None, None) => true,
        _ => false,
    }
}

pub open spec fn same_property(a: PropertyModel, b: PropertyModel) -> bool {
    match (a, b) {
        (PropertyModel::Float(x), PropertyModel::Float(y)) => same_number(x, y),
        (PropertyModel::Float(_), _) => false,
        _ => a == b,
    }
}

fn property_values_are_same(a: &PropertyValue, b: &PropertyValue) -> (yes: bool)
    ensures
        yes == same_property(a.deep_view(), b.deep_view()),
{
    match (a, b) {
        (PropertyValue::Null, PropertyValue::Null) => true,
        (PropertyValue::Bool(x), PropertyValue::Bool(y)) => *x == *y,
        (PropertyValue::Integer(x), PropertyValue::Integer(y)) => *x == *y,
        (PropertyValue::Float(x), PropertyValue::Float(y)) => numbers_are_same(*x, *y),
        (PropertyValue::Text(x), PropertyValue::Text(y)) => same_text(x.as_str(), y.as_str()),
        _ => false,
    }
}

/// Whether two property maps hold the same names with the same values.
pub open spec fn same_properties(a: PropertiesModel, b: PropertiesModel) -> bool {
    &&& a.len() == b.len()
    &&& forall|i: int| #![trigger a[i]]
        0 <= i < a.len() ==> a[i].0 == b[i].0 && same_property(a[i].1, b[i].1)
}

fn properties_are_same(a: &Properties, b: &Properties) -> (yes: bool)
    ensures
        yes == same_properties(a.deep_view(), b.deep_view()),
{
    if a.len() != b.len() {
        return false;
    }
    let ghost x = a.deep_view();
    let ghost y = b.deep_view();
    let mut i: usize = 0;
    while i < a.len()
        invariant
            x == a.deep_view(),
            y == b.deep_view(),
            x.len() == y.len(),
            i <= x.len(),
            forall|k: int| #![trigger x[k]]
                0 <= k < i ==> x[k].0 == y[k].0 && same_property(x[k].1, y[k].1),
        decreases x.len() - i,
    {
        assert(x[i as int] == x[i as int]);
        if !same_text(a.key_at(i).as_str(), b.key_at(i).as_str()) {
            return false;
        }
        if !property_values_are_same(a.value_at(i), b.value_at(i)) {
            return false;
        }
        i = i + 1;
    }
    true
}

/// Whether two maps from text to numbers hold the same names with the same numbers.
pub open spec fn same_terms(a: Seq<(Seq<char>, FloatBits)>, b: Seq<(Seq<char>, FloatBits)>) -> bool {
    &&& a.len() == b.len()
    &&& forall|i: int| #![trigger a[i]]
        0 <= i < a.len() ==> a[i].0 == b[i].0 && same_number(a[i].1, b[i].1)
}

fn terms_are_same(a: &TextMap<FloatBits>, b: &TextMap<FloatBits>) -> (yes: bool)
    ensures
        yes == same_terms(a.deep_view(), b.deep_view()),
{
    if a.len() != b.len() {
        return false;
    }
    let ghost x = a.deep_view();
    let ghost y = b.deep_view();
    let mut i: usize = 0;
    while i < a.len()
        invariant
            x == a.deep_view(),
            y == b.deep_view(),
            x.len() == y.len(),
            i <= x.len(),
            forall|k: int| #![trigger x[k]]
                0 <= k < i ==> x[k].0 == y[k].0 && same_number(x[k].1, y[k].1),
        decreases x.len() - i,
    {
        assert(x[i as int] == x[i as int]);
        if !same_text(a.key_at(i).as_str(), b.key_at(i).as_str()) {
            return false;
        }
        if !numbers_are_same(*a.value_at(i), *b.value_at(i)) {
            return false;
        }
        i = i + 1;
    }
    true
}

pub fn same_time(a: Option<i64>, b: Option<i64>) -> (yes: bool)
    ensures
        yes == (a == b),
{
    match (a, b) {
        (Some(x), Some(y)) => x == y,
        (None, None) => true,
        _ => false,
    }
}

pub fn same_entity_id(a: Option<EntityId>, b: Option<EntityId>) -> (yes: bool)
    ensures
        yes == (a == b),
{
    match (a, b) {
        (Some(x), Some(y)) => x.0 == y.0,
        (None, None) => true,
        _ => false,
    }
}

pub fn same_relation_id(a: Option<RelationId>, b: Option<RelationId>) -> (yes: bool)
    ensures
        yes == (a == b),
{
    match (a, b) {
        (Some(x), Some(y)) => x.0 == y.0,
        (None, None) => true,
        _ => false,
    }
}

pub fn same_run_id(a: Option<RunId>, b: Option<RunId>) -> (yes: bool)
    ensures
        yes == (a == b),
{
    match (a, b) {
        (Some(x), Some(y)) => x.0 == y.0,
        (None, None) => true,
        _ => false,
    }
}

pub fn same_id(a: Option<u128>, b: Option<u128>) -> (yes: bool)
    ensures
        yes == (a == b),
{
    match (a, b) {
        (Some(x), Some(y)) => x == y,
        (None, None) => true,
        _ => false,
    }
}

/// Whether two entities are the same.
pub open spec fn same_entity(a: EntityModel, b: EntityModel) -> bool {
    &&& same_properties(a.properties, b.properties)
    &&& EntityModel { properties: b.properties, ..a } == b
}

/// Whether two relations are the same.
pub open spec fn same_relation(a: RelationModel, b: RelationModel) -> bool {
    &&& same_properties(a.properties, b.properties)
    &&& RelationModel { properties: b.properties, ..a } == b
}

/// Whether two runs are the same.
pub open spec fn same_run(a: RunModel, b: RunModel) -> bool {
    &&& same_properties(a.attributes, b.attributes)
    &&& RunModel { attributes: b.attributes, ..a } == b
}

/// Whether two plans are the same.
pub open spec fn same_plan(a: PlanModel, b: PlanModel) -> bool {
    &&& same_properties(a.attributes, b.attributes)
    &&& same_terms(a.objective_terms, b.objective_terms)
    &&& same_optional_number(a.objective_value, b.objective_value)
    &&& PlanModel {
        attributes: b.attributes,
        objective_terms: b.objective_terms,
        objective_value: b.objective_value,
        ..a
    } == b
}

pub fn entities_are_same(a: &Entity, b: &Entity) -> (yes: bool)
    ensures
        yes == same_entity(a.deep_view(), b.deep_view()),
{
    a.id.0 == b.id.0 && same_text(a.kind.as_str(), b.kind.as_str()) && same_text(
        a.name.as_str(),
        b.name.as_str(),
    ) && same_entity_id(a.parent, b.parent) && a.valid_from == b.valid_from && same_time(
        a.valid_to,
        b.valid_to,
    ) && properties_are_same(&a.properties, &b.properties)
}

pub fn relations_are_same(a: &Relation, b: &Relation) -> (yes: bool)
    ensures
        yes == same_relation(a.deep_view(), b.deep_view()),
{
    a.id.0 == b.id.0 && same_text(a.kind.as_str(), b.kind.as_str()) && a.source.0 == b.source.0
        && a.target.0 == b.target.0 && a.valid_from == b.valid_from && same_time(
        a.valid_to,
        b.valid_to,
    ) && properties_are_same(&a.properties, &b.properties)
}

pub fn runs_are_same(a: &Run, b: &Run) -> (yes: bool)
    ensures
        yes == same_run(a.deep_view(), b.deep_view()),
{
    a.id.0 == b.id.0 && a.kind == b.kind && a.status == b.status && a.created_at == b.created_at
        && a.knowledge_time == b.knowledge_time && same_text(
        a.workflow.as_str(),
        b.workflow.as_str(),
    ) && same_text(a.model.as_str(), b.model.as_str()) && same_text(
        a.model_version.as_str(),
        b.model_version.as_str(),
    ) && same_run_id(a.parent_run, b.parent_run) && same_run_id(a.input_snapshot, b.input_snapshot)
        && properties_are_same(&a.attributes, &b.attributes)
}

pub fn plans_are_same(a: &Plan, b: &Plan) -> (yes: bool)
    ensures
        yes == same_plan(a.deep_view(), b.deep_view()),
{
    let values: bool = match (a.objective_value, b.objective_value) {
        (Some(x), Some(y)) => numbers_are_same(x, y),
        (None, None) => true,
        _ => false,
    };
    a.id == b.id && a.run_id.0 == b.run_id.0 && a.status == b.status && a.horizon_start
        == b.horizon_start && a.horizon_end == b.horizon_end && a.resolution_micros
        == b.resolution_micros && same_text(a.scenario.as_str(), b.scenario.as_str())
        && terms_are_same(&a.objective_terms, &b.objective_terms) && values && same_id(
        a.supersedes,
        b.supersedes,
    ) && properties_are_same(&a.attributes, &b.attributes)
}

fn resolutions_are_same(a: &RollupResolution, b: &RollupResolution) -> (yes: bool)
    ensures
        yes == (a.deep_view() == b.deep_view()),
{
    match (a, b) {
        (RollupResolution::FixedMicros(x), RollupResolution::FixedMicros(y)) => *x == *y,
        (
            RollupResolution::Calendar { unit: x, iana_timezone: p },
            RollupResolution::Calendar { unit: y, iana_timezone: q },
        ) => *x == *y && same_text(p.as_str(), q.as_str()),
        _ => false,
    }
}

fn tiers_are_same(a: &Vec<RollupTier>, b: &Vec<RollupTier>) -> (yes: bool)
    ensures
        yes == (a.deep_view() == b.deep_view()),
{
    let ghost x = a.deep_view();
    let ghost y = b.deep_view();
    if a.len() != b.len() {
        assert(x.len() != y.len());
        return false;
    }
    let mut i: usize = 0;
    while i < a.len()
        invariant
            x == a.deep_view(),
            y == b.deep_view(),
            a@.len() == b@.len(),
            i <= a@.len(),
            forall|k: int| 0 <= k < i ==> #[trigger] x[k] == y[k],
        decreases a@.len() - i,
    {
        if !resolutions_are_same(&a[i].resolution, &b[i].resolution) || !same_time(
            a[i].retain_for_micros,
            b[i].retain_for_micros,
        ) {
            assert(x[i as int] != y[i as int]);
            return false;
        }
        assert(x[i as int] == y[i as int]);
        i = i + 1;
    }
    assert(x =~= y);
    true
}

pub fn series_are_same(a: &SeriesDefinition, b: &SeriesDefinition) -> (yes: bool)
    ensures
        yes == (a.deep_view() == b.deep_view()),
{
    a.id == b.id && same_entity_id(a.owner_entity, b.owner_entity) && same_relation_id(
        a.owner_relation,
        b.owner_relation,
    ) && same_text(a.name.as_str(), b.name.as_str()) && same_text(
        a.physical_quantity.as_str(),
        b.physical_quantity.as_str(),
    ) && same_text(a.canonical_unit.as_str(), b.canonical_unit.as_str()) && a.semantics
        == b.semantics && same_time(a.maximum_gap_micros, b.maximum_gap_micros) && same_time(
        a.rollup_policy.raw_retain_for_micros,
        b.rollup_policy.raw_retain_for_micros,
    ) && tiers_are_same(&a.rollup_policy.tiers, &b.rollup_policy.tiers)
}

} // verus!
