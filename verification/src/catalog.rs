//! The catalog: entities, relations, series, runs and plans, and the rules that
//! keep them consistent.
use crate::dependencies::{find_cycle, first_repeat, snapshot_order};
#[allow(unused_imports)]
use crate::dependencies::{
    acyclic, acyclic_means_no_cycle, by_level, complete, dependencies_come_first, depends,
    ending_walks_are_acyclic, first_met_again, is_walk, leveled, links, next_of, ranked,
    snapshot_ordered, walk_ends, walk_repeats, Links,
};
use crate::error::Error;
#[allow(unused_imports)]
use crate::error::{corrupt_at, error_text, invalid_model};
use crate::map_keys::{u128_keys, u64_keys};
#[allow(unused_imports)]
use crate::map_keys::ascending_ids;
use crate::model::{
    Entity, EntityId, Plan, PlanStatus, Point, Properties, PropertyValue, Relation, RelationId,
    Run, RunId, RunKind, RunStatus, SeriesDefinition,
};
#[allow(unused_imports)]
use crate::model::{
    checked, finite, plan_fault, series_fault, EntityModel, PlanModel, PropertiesModel,
    PropertyModel, RelationModel, RunModel, SeriesModel,
};
use crate::sameness::{runs_are_same, same_entity_id, same_run_id};
#[allow(unused_imports)]
use crate::sameness::same_run;
use crate::text::{is_blank, put_decimal};
#[allow(unused_imports)]
use crate::text::{blank, decimal};
use crate::transaction::Record;
#[allow(unused_imports)]
use crate::transaction::{
    entity_records, plan_records, relation_records, run_records, series_records, RecordModel,
};
use std::collections::BTreeMap;
use vstd::prelude::*;
use vstd::std_specs::btree::*;
use vstd::string::*;

verus! {

/// How many records of each kind a catalog holds.
#[derive(Clone, Copy, Debug, PartialEq, Eq, Structural)]
pub struct CatalogStats {
    pub entities: usize,
    pub relations: usize,
    pub series: usize,
    pub runs: usize,
    pub plans: usize,
}

/// The records in force, by their identifiers.
#[derive(Debug)]
pub struct Catalog {
    entities: BTreeMap<u128, Entity>,
    relations: BTreeMap<u128, Relation>,
    series: BTreeMap<u64, SeriesDefinition>,
    runs: BTreeMap<u128, Run>,
    plans: BTreeMap<u128, Plan>,
}

/// What a catalog holds.
#[verifier::ext_equal]
pub struct CatalogModel {
    pub entities: Map<u128, EntityModel>,
    pub relations: Map<u128, RelationModel>,
    pub series: Map<u64, SeriesModel>,
    pub runs: Map<u128, RunModel>,
    pub plans: Map<u128, PlanModel>,
}

/// A catalog without records.
pub open spec fn empty_catalog() -> CatalogModel {
    CatalogModel {
        entities: Map::empty(),
        relations: Map::empty(),
        series: Map::empty(),
        runs: Map::empty(),
        plans: Map::empty(),
    }
}

/// A text with a number in it.
pub open spec fn numbered(before: Seq<char>, n: nat, after: Seq<char>) -> Seq<char> {
    before + decimal(n) + after
}

fn numbered_text(before: &str, n: u128, after: &str) -> (text: String)
    ensures
        text@ == numbered(before@, n as nat, after@),
{
    let mut text = String::new();
    text.append(before);
    put_decimal(&mut text, n);
    text.append(after);
    assert(text@ =~= numbered(before@, n as nat, after@));
    text
}

fn rejected(reason: &str) -> (error: Error)
    ensures
        invalid_model(error, reason@),
{
    Error::InvalidModel(reason.to_owned())
}

fn rejected_number(before: &str, n: u128, after: &str) -> (error: Error)
    ensures
        invalid_model(error, numbered(before@, n as nat, after@)),
{
    Error::InvalidModel(numbered_text(before, n, after))
}

/// Whether an outcome reports a fault, if there is one.
pub open spec fn reports_fault(outcome: Result<(), Error>, fault: Option<Seq<char>>) -> bool {
    match fault {
        Some(text) => outcome matches Err(error) && invalid_model(error, text),
        None => outcome is Ok,
    }
}

/// Whether a property may stand in the catalog.
pub open spec fn sound_property(entry: (Seq<char>, PropertyModel)) -> bool {
    !blank(entry.0) && (entry.1 matches PropertyModel::Float(number) ==> finite(number))
}

pub open spec fn sound_properties(properties: PropertiesModel) -> bool {
    forall|i: int| 0 <= i < properties.len() ==> sound_property(#[trigger] properties[i])
}

/// What is wrong with the properties of a record, if anything.
pub open spec fn properties_fault(label: Seq<char>, properties: PropertiesModel) -> Option<
    Seq<char>,
> {
    if sound_properties(properties) {
        None
    } else {
        Some(label + " properties require names and finite float values"@)
    }
}

fn validate_properties(label: &str, properties: &Properties) -> (outcome: Result<(), Error>)
    ensures
        reports_fault(outcome, properties_fault(label@, properties.deep_view())),
{
    let ghost model = properties.deep_view();
    let mut i: usize = 0;
    while i < properties.len()
        invariant
            model == properties.deep_view(),
            i <= model.len(),
            forall|k: int| 0 <= k < i ==> sound_property(#[trigger] model[k]),
        decreases model.len() - i,
    {
        let finite_value: bool = match properties.value_at(i) {
            PropertyValue::Float(number) => number.is_finite(),
            _ => true,
        };
        if is_blank(properties.key_at(i).as_str()) || !finite_value {
            assert(!sound_property(model[i as int]));
            let mut text = String::new();
            text.append(label);
            text.append(" properties require names and finite float values");
            assert(text@ =~= label@ + " properties require names and finite float values"@);
            return Err(Error::InvalidModel(text));
        }
        i = i + 1;
    }
    Ok(())
}

/// Whether a validity interval is empty or runs backwards.
pub open spec fn bad_interval(from: i64, to: Option<i64>) -> bool {
    to matches Some(end) && end <= from
}

/// The first rule that an entity breaks on its own.
pub open spec fn entity_fault(e: EntityModel) -> Option<Seq<char>> {
    if e.id.0 == 0 {
        Some("entity id zero is reserved"@)
    } else if blank(e.kind) || blank(e.name) {
        Some("entity kind and name are required"@)
    } else if e.parent == Some(e.id) {
        Some("entity cannot be its own parent"@)
    } else if bad_interval(e.valid_from, e.valid_to) {
        Some("entity validity interval must be positive"@)
    } else {
        properties_fault("entity"@, e.properties)
    }
}

/// Checks an entity on its own.
pub fn validate_entity(entity: &Entity) -> (outcome: Result<(), Error>)
    ensures
        reports_fault(outcome, entity_fault(entity.deep_view())),
{
    if entity.id.0 == 0 {
        return Err(rejected("entity id zero is reserved"));
    }
    if is_blank(entity.kind.as_str()) || is_blank(entity.name.as_str()) {
        return Err(rejected("entity kind and name are required"));
    }
    if same_entity_id(entity.parent, Some(entity.id)) {
        return Err(rejected("entity cannot be its own parent"));
    }
    if let Some(end) = entity.valid_to {
        if end <= entity.valid_from {
            return Err(rejected("entity validity interval must be positive"));
        }
    }
    validate_properties("entity", &entity.properties)
}

/// The first rule that a relation breaks on its own.
pub open spec fn relation_fault(r: RelationModel) -> Option<Seq<char>> {
    if r.id.0 == 0 || blank(r.kind) {
        Some("relation id and kind are required"@)
    } else if bad_interval(r.valid_from, r.valid_to) {
        Some("relation validity interval must be positive"@)
    } else {
        properties_fault("relation"@, r.properties)
    }
}

fn validate_relation(relation: &Relation) -> (outcome: Result<(), Error>)
    ensures
        reports_fault(outcome, relation_fault(relation.deep_view())),
{
    if relation.id.0 == 0 || is_blank(relation.kind.as_str()) {
        return Err(rejected("relation id and kind are required"));
    }
    if let Some(end) = relation.valid_to {
        if end <= relation.valid_from {
            return Err(rejected("relation validity interval must be positive"));
        }
    }
    validate_properties("relation", &relation.properties)
}

/// The first rule that a run breaks on its own.
pub open spec fn run_fault(r: RunModel) -> Option<Seq<char>> {
    if r.id.0 == 0 || blank(r.workflow) {
        Some("run id and workflow are required"@)
    } else if r.parent_run == Some(r.id) || r.input_snapshot == Some(r.id) {
        Some("run cannot refer to itself"@)
    } else {
        properties_fault("run"@, r.attributes)
    }
}

/// Checks a run on its own.
pub fn validate_run(run: &Run) -> (outcome: Result<(), Error>)
    ensures
        reports_fault(outcome, run_fault(run.deep_view())),
{
    if run.id.0 == 0 || is_blank(run.workflow.as_str()) {
        return Err(rejected("run id and workflow are required"));
    }
    if same_run_id(run.parent_run, Some(run.id)) || same_run_id(run.input_snapshot, Some(run.id)) {
        return Err(rejected("run cannot refer to itself"));
    }
    validate_properties("run", &run.attributes)
}

/// Whether a run has come to its end.
pub open spec fn terminal(status: RunStatus) -> bool {
    status == RunStatus::Succeeded || status == RunStatus::Failed || status == RunStatus::Cancelled
}

/// The first rule that a new state of a run breaks.
pub open spec fn run_transition_fault(previous: RunModel, next: RunModel) -> Option<Seq<char>> {
    if terminal(previous.status) && !same_run(previous, next) {
        Some(numbered("completed run "@, previous.id.0 as nat, " is immutable"@))
    } else if previous.kind != next.kind || previous.created_at != next.created_at {
        Some(numbered("run "@, previous.id.0 as nat, " identity fields are immutable"@))
    } else {
        None
    }
}

fn validate_run_transition(previous: &Run, next: &Run) -> (outcome: Result<(), Error>)
    ensures
        reports_fault(outcome, run_transition_fault(previous.deep_view(), next.deep_view())),
{
    let terminal: bool = match previous.status {
        RunStatus::Succeeded => true,
        RunStatus::Failed => true,
        RunStatus::Cancelled => true,
        _ => false,
    };
    if terminal && !runs_are_same(previous, next) {
        return Err(rejected_number("completed run ", previous.id.0, " is immutable"));
    }
    if previous.kind != next.kind || previous.created_at != next.created_at {
        return Err(rejected_number("run ", previous.id.0, " identity fields are immutable"));
    }
    Ok(())
}

/// Whether a plan may go from one status to another.
pub open spec fn status_may_follow(previous: PlanStatus, next: PlanStatus) -> bool {
    ||| previous == next
    ||| previous == PlanStatus::Candidate && (next == PlanStatus::Approved || next
        == PlanStatus::Cancelled || next == PlanStatus::Superseded)
    ||| previous == PlanStatus::Approved && (next == PlanStatus::Deployed || next
        == PlanStatus::Cancelled || next == PlanStatus::Superseded)
    ||| previous == PlanStatus::Deployed && next == PlanStatus::Superseded
}

/// The first rule that a new state of a plan breaks.
pub open spec fn plan_transition_fault(previous: PlanModel, next: PlanModel) -> Option<Seq<char>> {
    if previous.run_id != next.run_id || previous.horizon_start != next.horizon_start
        || previous.horizon_end != next.horizon_end || previous.resolution_micros
        != next.resolution_micros {
        Some(numbered("plan "@, previous.id as nat, " schedule identity fields are immutable"@))
    } else if !status_may_follow(previous.status, next.status) {
        Some(numbered("invalid plan "@, previous.id as nat, " status transition"@))
    } else {
        None
    }
}

fn validate_plan_transition(previous: &Plan, next: &Plan) -> (outcome: Result<(), Error>)
    ensures
        reports_fault(outcome, plan_transition_fault(previous.deep_view(), next.deep_view())),
{
    if previous.run_id.0 != next.run_id.0 || previous.horizon_start != next.horizon_start
        || previous.horizon_end != next.horizon_end || previous.resolution_micros
        != next.resolution_micros {
        return Err(
            rejected_number("plan ", previous.id, " schedule identity fields are immutable"),
        );
    }
    let allowed: bool = previous.status == next.status || match (previous.status, next.status) {
        (PlanStatus::Candidate, PlanStatus::Approved) => true,
        (PlanStatus::Candidate, PlanStatus::Cancelled) => true,
        (PlanStatus::Candidate, PlanStatus::Superseded) => true,
        (PlanStatus::Approved, PlanStatus::Deployed) => true,
        (PlanStatus::Approved, PlanStatus::Cancelled) => true,
        (PlanStatus::Approved, PlanStatus::Superseded) => true,
        (PlanStatus::Deployed, PlanStatus::Superseded) => true,
        _ => false,
    };
    if !allowed {
        return Err(rejected_number("invalid plan ", previous.id, " status transition"));
    }
    Ok(())
}

/// The first rule that a plan breaks on its own, its attributes included.
pub open spec fn plan_record_fault(p: PlanModel) -> Option<Seq<char>> {
    match plan_fault(p) {
        Some(reason) => Some(reason@),
        None => properties_fault("plan"@, p.attributes),
    }
}

pub open spec fn series_record_fault(s: SeriesModel) -> Option<Seq<char>> {
    match series_fault(s) {
        Some(reason) => Some(reason@),
        None => None,
    }
}

/// The first rule that a record breaks on its own or against the record that it
/// replaces.
pub open spec fn record_fault(c: CatalogModel, record: RecordModel) -> Option<Seq<char>> {
    match record {
        RecordModel::Entity(e) => entity_fault(e),
        RecordModel::Relation(r) => relation_fault(r),
        RecordModel::Series(s) => series_record_fault(s),
        RecordModel::Run(r) => match run_fault(r) {
            Some(text) => Some(text),
            None => if c.runs.contains_key(r.id.0) {
                run_transition_fault(c.runs[r.id.0], r)
            } else {
                None
            },
        },
        RecordModel::Plan(p) => match plan_record_fault(p) {
            Some(text) => Some(text),
            None => if c.plans.contains_key(p.id) {
                plan_transition_fault(c.plans[p.id], p)
            } else {
                None
            },
        },
        RecordModel::Points(_) => None,
    }
}

/// A catalog with a record put in, in place of any with its identifier.
pub open spec fn with_record(c: CatalogModel, record: RecordModel) -> CatalogModel {
    match record {
        RecordModel::Entity(e) => CatalogModel { entities: c.entities.insert(e.id.0, e), ..c },
        RecordModel::Relation(r) => CatalogModel { relations: c.relations.insert(r.id.0, r), ..c },
        RecordModel::Series(s) => CatalogModel { series: c.series.insert(s.id, s), ..c },
        RecordModel::Run(r) => CatalogModel { runs: c.runs.insert(r.id.0, r), ..c },
        RecordModel::Plan(p) => CatalogModel { plans: c.plans.insert(p.id, p), ..c },
        RecordModel::Points(_) => c,
    }
}

/// A catalog after some records, or the first fault among them.
pub open spec fn after_records(c: CatalogModel, records: Seq<RecordModel>) -> Result<
    CatalogModel,
    Seq<char>,
>
    decreases records.len(),
{
    if records.len() == 0 {
        Ok(c)
    } else {
        match after_records(c, records.drop_last()) {
            Err(text) => Err(text),
            Ok(before) => match record_fault(before, records.last()) {
                Some(text) => Err(text),
                None => Ok(with_record(before, records.last())),
            },
        }
    }
}

proof fn lemma_fault_stays(c: CatalogModel, records: Seq<RecordModel>, n: int)
    requires
        0 <= n <= records.len(),
        after_records(c, records.take(n)) is Err,
    ensures
        after_records(c, records) == after_records(c, records.take(n)),
    decreases records.len() - n,
{
    if n < records.len() {
        assert(records.take(n + 1).drop_last() =~= records.take(n));
        lemma_fault_stays(c, records, n + 1);
    } else {
        assert(records.take(n) =~= records);
    }
}

impl Catalog {
    /// What the catalog holds.
    pub closed spec fn model(&self) -> CatalogModel {
        CatalogModel {
            entities: self.entities@.map_values(|e: Entity| e.deep_view()),
            relations: self.relations@.map_values(|r: Relation| r.deep_view()),
            series: self.series@.map_values(|s: SeriesDefinition| s.deep_view()),
            runs: self.runs@.map_values(|r: Run| r.deep_view()),
            plans: self.plans@.map_values(|p: Plan| p.deep_view()),
        }
    }

    /// Puts one record in.
    fn apply(&mut self, record: &Record) -> (outcome: Result<(), Error>)
        ensures
            reports_fault(outcome, record_fault(old(self).model(), record.deep_view())),
            outcome is Ok ==> final(self).model() == with_record(
                old(self).model(),
                record.deep_view(),
            ),
            outcome is Err ==> final(self).model() == old(self).model(),
    {
        broadcast use group_btree_axioms;

        let ghost before = self.model();
        match record {
            Record::Entity(entity) => {
                validate_entity(entity)?;
                let copy = entity.clone();
                self.entities.insert(entity.id.0, copy);
                assert(self.model().entities =~= before.entities.insert(
                    entity.id.0,
                    entity.deep_view(),
                ));
            },
            Record::Relation(relation) => {
                validate_relation(relation)?;
                let copy = relation.clone();
                self.relations.insert(relation.id.0, copy);
                assert(self.model().relations =~= before.relations.insert(
                    relation.id.0,
                    relation.deep_view(),
                ));
            },
            Record::Series(series) => {
                match series.validate() {
                    Ok(()) => {},
                    Err(reason) => {
                        return Err(rejected(reason));
                    },
                }
                let copy = series.clone();
                self.series.insert(series.id, copy);
                assert(self.model().series =~= before.series.insert(series.id, series.deep_view()));
            },
            Record::Run(run) => {
                validate_run(run)?;
                if let Some(previous) = self.runs.get(&run.id.0) {
                    validate_run_transition(previous, run)?;
                }
                let copy = run.clone();
                self.runs.insert(run.id.0, copy);
                assert(self.model().runs =~= before.runs.insert(run.id.0, run.deep_view()));
            },
            Record::Plan(plan) => {
                match plan.validate() {
                    Ok(()) => {},
                    Err(reason) => {
                        return Err(rejected(reason));
                    },
                }
                validate_properties("plan", &plan.attributes)?;
                if let Some(previous) = self.plans.get(&plan.id) {
                    validate_plan_transition(previous, plan)?;
                }
                let copy = plan.clone();
                self.plans.insert(plan.id, copy);
                assert(self.model().plans =~= before.plans.insert(plan.id, plan.deep_view()));
            },
            Record::Points(_) => {},
        }
        assert(self.model() =~= with_record(before, record.deep_view()));
        Ok(())
    }
}

/// The parent of each entity.
pub open spec fn entity_links(entities: Map<u128, EntityModel>) -> Links {
    entities.map_values(
        |e: EntityModel|
            match e.parent {
                Some(parent) => seq![parent.0],
                None => Seq::empty(),
            },
    )
}

pub open spec fn run_needs(run: RunModel) -> Seq<u128> {
    (match run.input_snapshot {
        Some(input) => seq![input.0],
        None => Seq::empty(),
    }) + (match run.parent_run {
        Some(parent) => seq![parent.0],
        None => Seq::empty(),
    })
}

/// The runs that each run comes from.
pub open spec fn run_links(runs: Map<u128, RunModel>) -> Links {
    runs.map_values(|r: RunModel| run_needs(r))
}

/// The plan that each plan supersedes.
pub open spec fn plan_links(plans: Map<u128, PlanModel>) -> Links {
    plans.map_values(
        |p: PlanModel|
            match p.supersedes {
                Some(previous) => seq![previous],
                None => Seq::empty(),
            },
    )
}

pub open spec fn parent_is_there(c: CatalogModel, id: u128) -> bool {
    c.entities[id].parent matches Some(parent) ==> c.entities.contains_key(parent.0)
}

/// Whether an entity's parent is there and its chain of parents ends.
pub open spec fn entity_stands(c: CatalogModel, id: u128) -> bool {
    parent_is_there(c, id) && walk_ends(entity_links(c.entities), id)
}

/// Whether `text` says what is wrong with an entity's parents.
pub open spec fn entity_falls(c: CatalogModel, id: u128, text: Seq<char>) -> bool {
    if !parent_is_there(c, id) {
        text == "entity "@ + decimal(id as nat) + " refers to missing parent "@ + decimal(
            (c.entities[id].parent->Some_0).0 as nat,
        )
    } else {
        exists|again: u128| #[trigger]
            walk_repeats(entity_links(c.entities), id, again) && text == numbered(
                "entity parent cycle contains "@,
                again as nat,
                ""@,
            )
    }
}

pub open spec fn relation_stands(c: CatalogModel, id: u128) -> bool {
    c.entities.contains_key(c.relations[id].source.0) && c.entities.contains_key(
        c.relations[id].target.0,
    )
}

pub open spec fn series_stands(c: CatalogModel, id: u64) -> bool {
    &&& c.series[id].owner_entity matches Some(owner) ==> c.entities.contains_key(owner.0)
    &&& c.series[id].owner_relation matches Some(owner) ==> c.relations.contains_key(owner.0)
}

pub open spec fn run_stands(c: CatalogModel, id: u128) -> bool {
    &&& c.runs[id].parent_run matches Some(parent) ==> c.runs.contains_key(parent.0)
    &&& c.runs[id].input_snapshot matches Some(input) ==> c.runs.contains_key(input.0)
}

/// What is wrong with what a plan refers to, if anything.
pub open spec fn plan_reference_fault(c: CatalogModel, id: u128) -> Option<Seq<char>> {
    let plan = c.plans[id];
    if !c.runs.contains_key(plan.run_id.0) {
        Some(numbered("plan "@, id as nat, " refers to a missing run"@))
    } else if c.runs[plan.run_id.0].kind != RunKind::Optimization {
        Some(numbered("plan "@, id as nat, " must refer to an optimization run"@))
    } else if plan.supersedes matches Some(previous) && !c.plans.contains_key(previous) {
        Some(numbered("plan "@, id as nat, " supersedes a missing plan"@))
    } else {
        None
    }
}

pub open spec fn entities_stand(c: CatalogModel) -> bool {
    forall|id: u128| #[trigger] c.entities.contains_key(id) ==> entity_stands(c, id)
}

pub open spec fn relations_stand(c: CatalogModel) -> bool {
    forall|id: u128| #[trigger] c.relations.contains_key(id) ==> relation_stands(c, id)
}

pub open spec fn all_series_stand(c: CatalogModel) -> bool {
    forall|id: u64| #[trigger] c.series.contains_key(id) ==> series_stands(c, id)
}

pub open spec fn runs_stand(c: CatalogModel) -> bool {
    forall|id: u128| #[trigger] c.runs.contains_key(id) ==> run_stands(c, id)
}

pub open spec fn plans_stand(c: CatalogModel) -> bool {
    forall|id: u128| #[trigger] c.plans.contains_key(id) ==> plan_reference_fault(c, id) is None
}

/// Whether everything that records refer to is there, and no record refers to
/// itself through others.
pub open spec fn consistent(c: CatalogModel) -> bool {
    &&& entities_stand(c)
    &&& relations_stand(c)
    &&& all_series_stand(c)
    &&& runs_stand(c)
    &&& acyclic(run_links(c.runs))
    &&& plans_stand(c)
    &&& acyclic(plan_links(c.plans))
}

/// Whether `id` is the lowest entity that does not stand, and `text` says why.
pub open spec fn first_bad_entity(c: CatalogModel, id: u128, text: Seq<char>) -> bool {
    &&& c.entities.contains_key(id)
    &&& entity_falls(c, id, text)
    &&& forall|k: u128| #[trigger] c.entities.contains_key(k) && k < id ==> entity_stands(c, k)
}

pub open spec fn first_bad_relation(c: CatalogModel, id: u128, text: Seq<char>) -> bool {
    &&& c.relations.contains_key(id)
    &&& !relation_stands(c, id)
    &&& text == numbered("relation "@, id as nat, " has a missing endpoint"@)
    &&& forall|k: u128| #[trigger] c.relations.contains_key(k) && k < id ==> relation_stands(c, k)
}

pub open spec fn first_bad_series(c: CatalogModel, id: u64, text: Seq<char>) -> bool {
    &&& c.series.contains_key(id)
    &&& !series_stands(c, id)
    &&& text == numbered("series "@, id as nat, " has a missing owner"@)
    &&& forall|k: u64| #[trigger] c.series.contains_key(k) && k < id ==> series_stands(c, k)
}

pub open spec fn first_bad_run(c: CatalogModel, id: u128, text: Seq<char>) -> bool {
    &&& c.runs.contains_key(id)
    &&& !run_stands(c, id)
    &&& text == numbered("run "@, id as nat, " has missing provenance"@)
    &&& forall|k: u128| #[trigger] c.runs.contains_key(k) && k < id ==> run_stands(c, k)
}

pub open spec fn run_cycle(c: CatalogModel, id: u128, text: Seq<char>) -> bool {
    &&& first_met_again(run_links(c.runs)) == Some(id)
    &&& text == numbered("run provenance cycle contains "@, id as nat, ""@)
}

pub open spec fn first_bad_plan(c: CatalogModel, id: u128, text: Seq<char>) -> bool {
    &&& c.plans.contains_key(id)
    &&& plan_reference_fault(c, id) == Some(text)
    &&& forall|k: u128| #[trigger]
        c.plans.contains_key(k) && k < id ==> plan_reference_fault(c, k) is None
}

pub open spec fn plan_cycle(c: CatalogModel, id: u128, text: Seq<char>) -> bool {
    &&& first_met_again(plan_links(c.plans)) == Some(id)
    &&& text == numbered("plan supersession cycle contains "@, id as nat, ""@)
}

/// Whether `text` says what is first wrong with the references of a catalog:
/// entities come first, then relations, series, runs and plans, each by ascending
/// identifier.
pub open spec fn inconsistency(c: CatalogModel, text: Seq<char>) -> bool {
    if !entities_stand(c) {
        exists|id: u128| first_bad_entity(c, id, text)
    } else if !relations_stand(c) {
        exists|id: u128| first_bad_relation(c, id, text)
    } else if !all_series_stand(c) {
        exists|id: u64| first_bad_series(c, id, text)
    } else if !runs_stand(c) {
        exists|id: u128| first_bad_run(c, id, text)
    } else if !acyclic(run_links(c.runs)) {
        exists|id: u128| run_cycle(c, id, text)
    } else if !plans_stand(c) {
        exists|id: u128| first_bad_plan(c, id, text)
    } else {
        !acyclic(plan_links(c.plans)) && exists|id: u128| plan_cycle(c, id, text)
    }
}

/// Whether an error says what is first wrong with the references of a catalog.
pub open spec fn says_inconsistency(error: Error, c: CatalogModel) -> bool {
    error matches Error::InvalidModel(text) && inconsistency(c, text@)
}

/// Two walks from one start agree as far as both go.
proof fn lemma_walks_agree(g: Links, p: Seq<u128>, q: Seq<u128>, n: int)
    requires
        is_walk(g, p),
        is_walk(g, q),
        p.len() > 0,
        q.len() > 0,
        p[0] == q[0],
        0 <= n < p.len(),
        n < q.len(),
    ensures
        p[n] == q[n],
    decreases n,
{
    if n > 0 {
        lemma_walks_agree(g, p, q, n - 1);
        assert(next_of(g, p[n - 1]) == Some(p[n]));
        assert(next_of(g, q[n - 1]) == Some(q[n]));
    }
}

/// A walk that comes back does not end.
pub proof fn walks_do_not_both(g: Links, start: u128, again: u128)
    requires
        walk_repeats(g, start, again),
    ensures
        !walk_ends(g, start),
{
    let q = choose|p: Seq<u128>| #[trigger]
        is_walk(g, p.push(again)) && p.len() > 0 && p[0] == start && p.no_duplicates()
            && p.contains(again);
    let round = q.push(again);
    if walk_ends(g, start) {
        let p = choose|p: Seq<u128>| #[trigger]
            is_walk(g, p) && p.len() > 0 && p[0] == start && p.no_duplicates() && next_of(
                g,
                p.last(),
            ) is None;
        if p.len() <= q.len() {
            let n = p.len() - 1;
            lemma_walks_agree(g, p, round, n);
            assert(next_of(g, round[n]) == Some(round[n + 1]));
        } else {
            let i = q.index_of(again);
            lemma_walks_agree(g, p, round, i);
            lemma_walks_agree(g, p, round, q.len() as int);
            assert(p[i] == p[q.len() as int]);
        }
    }
}

impl Catalog {
    #[verifier::loop_isolation(false)]
    fn entity_graph(&self) -> (graph: BTreeMap<u128, Vec<u128>>)
        ensures
            links(graph@) == entity_links(self.model().entities),
    {
        broadcast use group_btree_axioms;

        let ghost whole = entity_links(self.model().entities);
        let keys = u128_keys(&self.entities);
        let mut graph: BTreeMap<u128, Vec<u128>> = BTreeMap::new();
        let mut i: usize = 0;
        while i < keys.len()
            invariant
                i <= keys@.len(),
                forall|k: u128| #[trigger]
                    graph@.contains_key(k) <==> keys@.take(i as int).contains(k),
                forall|k: u128| #[trigger] graph@.contains_key(k) ==> graph@[k]@ == whole[k],
            decreases keys@.len() - i,
        {
            let id: u128 = keys[i];
            let mut needs: Vec<u128> = Vec::new();
            assert(keys@.contains(id));
            if let Some(entity) = self.entities.get(&id) {
                if let Some(parent) = entity.parent {
                    needs.push(parent.0);
                }
            }
            assert(needs@ =~= whole[id]);
            graph.insert(id, needs);
            proof {
                lemma_one_more(keys@, i as int);
            }
            i = i + 1;
        }
        assert(keys@.take(i as int) =~= keys@);
        assert(links(graph@) =~= whole);
        graph
    }

    #[verifier::loop_isolation(false)]
    fn run_graph(&self) -> (graph: BTreeMap<u128, Vec<u128>>)
        ensures
            links(graph@) == run_links(self.model().runs),
    {
        broadcast use group_btree_axioms;

        let ghost whole = run_links(self.model().runs);
        let keys = u128_keys(&self.runs);
        let mut graph: BTreeMap<u128, Vec<u128>> = BTreeMap::new();
        let mut i: usize = 0;
        while i < keys.len()
            invariant
                i <= keys@.len(),
                forall|k: u128| #[trigger]
                    graph@.contains_key(k) <==> keys@.take(i as int).contains(k),
                forall|k: u128| #[trigger] graph@.contains_key(k) ==> graph@[k]@ == whole[k],
            decreases keys@.len() - i,
        {
            let id: u128 = keys[i];
            let mut needs: Vec<u128> = Vec::new();
            assert(keys@.contains(id));
            if let Some(run) = self.runs.get(&id) {
                if let Some(input) = run.input_snapshot {
                    needs.push(input.0);
                }
                if let Some(parent) = run.parent_run {
                    needs.push(parent.0);
                }
            }
            assert(needs@ =~= whole[id]);
            graph.insert(id, needs);
            proof {
                lemma_one_more(keys@, i as int);
            }
            i = i + 1;
        }
        assert(keys@.take(i as int) =~= keys@);
        assert(links(graph@) =~= whole);
        graph
    }

    #[verifier::loop_isolation(false)]
    fn plan_graph(&self) -> (graph: BTreeMap<u128, Vec<u128>>)
        ensures
            links(graph@) == plan_links(self.model().plans),
    {
        broadcast use group_btree_axioms;

        let ghost whole = plan_links(self.model().plans);
        let keys = u128_keys(&self.plans);
        let mut graph: BTreeMap<u128, Vec<u128>> = BTreeMap::new();
        let mut i: usize = 0;
        while i < keys.len()
            invariant
                i <= keys@.len(),
                forall|k: u128| #[trigger]
                    graph@.contains_key(k) <==> keys@.take(i as int).contains(k),
                forall|k: u128| #[trigger] graph@.contains_key(k) ==> graph@[k]@ == whole[k],
            decreases keys@.len() - i,
        {
            let id: u128 = keys[i];
            let mut needs: Vec<u128> = Vec::new();
            assert(keys@.contains(id));
            if let Some(plan) = self.plans.get(&id) {
                if let Some(previous) = plan.supersedes {
                    needs.push(previous);
                }
            }
            assert(needs@ =~= whole[id]);
            graph.insert(id, needs);
            proof {
                lemma_one_more(keys@, i as int);
            }
            i = i + 1;
        }
        assert(keys@.take(i as int) =~= keys@);
        assert(links(graph@) =~= whole);
        graph
    }

    #[verifier::loop_isolation(false)]
    fn check_entities(&self) -> (outcome: Result<(), Error>)
        ensures
            outcome is Ok ==> entities_stand(self.model()),
            outcome matches Err(e) ==> !entities_stand(self.model()) && says_inconsistency(
                e,
                self.model(),
            ),
    {
        broadcast use group_btree_axioms;

        let ghost c = self.model();
        let graph = self.entity_graph();
        let keys = u128_keys(&self.entities);
        let mut i: usize = 0;
        while i < keys.len()
            invariant
                i <= keys@.len(),
                forall|k: int| 0 <= k < i ==> entity_stands(c, #[trigger] keys@[k]),
            decreases keys@.len() - i,
        {
            let id: u128 = keys[i];
            assert(keys@.contains(id));
            assert(c.entities.contains_key(id));
            assert forall|k: u128| #[trigger] c.entities.contains_key(k) && k < id implies
                entity_stands(c, k) by {
                assert(keys@.contains(k));
                let at = keys@.index_of(k);
                assert(keys@[at] == k);
                assert(at < i);
            }
            if let Some(entity) = self.entities.get(&id) {
                if let Some(parent) = entity.parent {
                    if !self.entities.contains_key(&parent.0) {
                        let mut text = String::new();
                        text.append("entity ");
                        put_decimal(&mut text, id);
                        text.append(" refers to missing parent ");
                        put_decimal(&mut text, parent.0);
                        assert(c.entities[id] == entity.deep_view());
                        assert(text@ =~= "entity "@ + decimal(id as nat)
                            + " refers to missing parent "@ + decimal(parent.0 as nat));
                        assert(first_bad_entity(c, id, text@));
                        assert(!entity_stands(c, id));
                        return Err(Error::InvalidModel(text));
                    }
                }
                assert(c.entities[id] == entity.deep_view());
            }
            assert(parent_is_there(c, id));
            if let Some(again) = first_repeat(&graph, id) {
                let error = rejected_number("entity parent cycle contains ", again, "");
                proof {
                    walks_do_not_both(entity_links(c.entities), id, again);
                    assert(!entity_stands(c, id));
                    let text = error->InvalidModel_0@;
                    assert(entity_falls(c, id, text));
                    assert(first_bad_entity(c, id, text));
                }
                return Err(error);
            }
            i = i + 1;
        }
        assert forall|id: u128| #[trigger] c.entities.contains_key(id) implies entity_stands(
            c,
            id,
        ) by {
            assert(keys@.contains(id));
            assert(keys@[keys@.index_of(id)] == id);
        }
        Ok(())
    }

    #[verifier::loop_isolation(false)]
    fn check_relations(&self) -> (outcome: Result<(), Error>)
        requires
            entities_stand(self.model()),
        ensures
            outcome is Ok ==> relations_stand(self.model()),
            outcome matches Err(e) ==> !relations_stand(self.model()) && says_inconsistency(
                e,
                self.model(),
            ),
    {
        broadcast use group_btree_axioms;

        let ghost c = self.model();
        let keys = u128_keys(&self.relations);
        let mut i: usize = 0;
        while i < keys.len()
            invariant
                i <= keys@.len(),
                forall|k: int| 0 <= k < i ==> relation_stands(c, #[trigger] keys@[k]),
            decreases keys@.len() - i,
        {
            let id: u128 = keys[i];
            assert(keys@.contains(id));
            assert(c.relations.contains_key(id));
            assert forall|k: u128| #[trigger] c.relations.contains_key(k) && k < id implies
                relation_stands(c, k) by {
                assert(keys@.contains(k));
                assert(keys@[keys@.index_of(k)] == k);
            }
            if let Some(relation) = self.relations.get(&id) {
                assert(c.relations[id] == relation.deep_view());
                if !self.entities.contains_key(&relation.source.0) || !self.entities.contains_key(
                    &relation.target.0,
                ) {
                    let error = rejected_number("relation ", id, " has a missing endpoint");
                    assert(first_bad_relation(c, id, error->InvalidModel_0@));
                    return Err(error);
                }
            }
            i = i + 1;
        }
        assert forall|id: u128| #[trigger] c.relations.contains_key(id) implies relation_stands(
            c,
            id,
        ) by {
            assert(keys@.contains(id));
            assert(keys@[keys@.index_of(id)] == id);
        }
        Ok(())
    }

    #[verifier::loop_isolation(false)]
    fn check_series(&self) -> (outcome: Result<(), Error>)
        requires
            entities_stand(self.model()),
            relations_stand(self.model()),
        ensures
            outcome is Ok ==> all_series_stand(self.model()),
            outcome matches Err(e) ==> !all_series_stand(self.model()) && says_inconsistency(
                e,
                self.model(),
            ),
    {
        broadcast use group_btree_axioms;

        let ghost c = self.model();
        let keys = u64_keys(&self.series);
        let mut i: usize = 0;
        while i < keys.len()
            invariant
                i <= keys@.len(),
                forall|k: int| 0 <= k < i ==> series_stands(c, #[trigger] keys@[k]),
            decreases keys@.len() - i,
        {
            let id: u64 = keys[i];
            assert(keys@.contains(id));
            assert(c.series.contains_key(id));
            assert forall|k: u64| #[trigger] c.series.contains_key(k) && k < id implies
                series_stands(c, k) by {
                assert(keys@.contains(k));
                assert(keys@[keys@.index_of(k)] == k);
            }
            if let Some(series) = self.series.get(&id) {
                assert(c.series[id] == series.deep_view());
                let entity_gone: bool = match series.owner_entity {
                    Some(owner) => !self.entities.contains_key(&owner.0),
                    None => false,
                };
                let relation_gone: bool = match series.owner_relation {
                    Some(owner) => !self.relations.contains_key(&owner.0),
                    None => false,
                };
                if entity_gone || relation_gone {
                    let error = rejected_number("series ", id as u128, " has a missing owner");
                    assert(first_bad_series(c, id, error->InvalidModel_0@));
                    return Err(error);
                }
            }
            i = i + 1;
        }
        assert forall|id: u64| #[trigger] c.series.contains_key(id) implies series_stands(
            c,
            id,
        ) by {
            assert(keys@.contains(id));
            assert(keys@[keys@.index_of(id)] == id);
        }
        Ok(())
    }

    #[verifier::loop_isolation(false)]
    fn check_runs(&self) -> (outcome: Result<(), Error>)
        requires
            entities_stand(self.model()),
            relations_stand(self.model()),
            all_series_stand(self.model()),
        ensures
            outcome is Ok ==> runs_stand(self.model()) && acyclic(run_links(self.model().runs)),
            outcome matches Err(e) ==> !(runs_stand(self.model()) && acyclic(
                run_links(self.model().runs),
            )) && says_inconsistency(e, self.model()),
    {
        broadcast use group_btree_axioms;

        let ghost c = self.model();
        let keys = u128_keys(&self.runs);
        let mut i: usize = 0;
        while i < keys.len()
            invariant
                i <= keys@.len(),
                forall|k: int| 0 <= k < i ==> run_stands(c, #[trigger] keys@[k]),
            decreases keys@.len() - i,
        {
            let id: u128 = keys[i];
            assert(keys@.contains(id));
            assert(c.runs.contains_key(id));
            assert forall|k: u128| #[trigger] c.runs.contains_key(k) && k < id implies run_stands(
                c,
                k,
            ) by {
                assert(keys@.contains(k));
                assert(keys@[keys@.index_of(k)] == k);
            }
            if let Some(run) = self.runs.get(&id) {
                assert(c.runs[id] == run.deep_view());
                let parent_gone: bool = match run.parent_run {
                    Some(parent) => !self.runs.contains_key(&parent.0),
                    None => false,
                };
                let input_gone: bool = match run.input_snapshot {
                    Some(input) => !self.runs.contains_key(&input.0),
                    None => false,
                };
                if parent_gone || input_gone {
                    let error = rejected_number("run ", id, " has missing provenance");
                    assert(first_bad_run(c, id, error->InvalidModel_0@));
                    return Err(error);
                }
            }
            i = i + 1;
        }
        assert forall|id: u128| #[trigger] c.runs.contains_key(id) implies run_stands(c, id) by {
            assert(keys@.contains(id));
            assert(keys@[keys@.index_of(id)] == id);
        }
        let graph = self.run_graph();
        proof {
            let g = run_links(c.runs);
            assert forall|a: u128, b: u128| #[trigger] depends(g, a, b) implies g.contains_key(b) by {
                assert(c.runs.contains_key(a));
                assert(run_stands(c, a));
                let at = run_needs(c.runs[a]).index_of(b);
                assert(run_needs(c.runs[a])[at] == b);
            }
        }
        if let Some(id) = find_cycle(&graph) {
            let error = rejected_number("run provenance cycle contains ", id, "");
            proof {
                if acyclic(run_links(c.runs)) {
                    acyclic_means_no_cycle(run_links(c.runs), id);
                }
                assert(run_cycle(c, id, error->InvalidModel_0@));
            }
            return Err(error);
        }
        Ok(())
    }

    #[verifier::loop_isolation(false)]
    fn check_plans(&self) -> (outcome: Result<(), Error>)
        requires
            entities_stand(self.model()),
            relations_stand(self.model()),
            all_series_stand(self.model()),
            runs_stand(self.model()),
            acyclic(run_links(self.model().runs)),
        ensures
            outcome is Ok ==> plans_stand(self.model()) && acyclic(plan_links(self.model().plans)),
            outcome matches Err(e) ==> !(plans_stand(self.model()) && acyclic(
                plan_links(self.model().plans),
            )) && says_inconsistency(e, self.model()),
    {
        broadcast use group_btree_axioms;

        let ghost c = self.model();
        let keys = u128_keys(&self.plans);
        let mut i: usize = 0;
        while i < keys.len()
            invariant
                i <= keys@.len(),
                forall|k: int| 0 <= k < i ==> plan_reference_fault(c, #[trigger] keys@[k]) is None,
            decreases keys@.len() - i,
        {
            let id: u128 = keys[i];
            assert(keys@.contains(id));
            assert(c.plans.contains_key(id));
            assert forall|k: u128| #[trigger] c.plans.contains_key(k) && k < id implies
                plan_reference_fault(c, k) is None by {
                assert(keys@.contains(k));
                assert(keys@[keys@.index_of(k)] == k);
            }
            if let Some(plan) = self.plans.get(&id) {
                assert(c.plans[id] == plan.deep_view());
                match self.runs.get(&plan.run_id.0) {
                    None => {
                        let error = rejected_number("plan ", id, " refers to a missing run");
                        assert(first_bad_plan(c, id, error->InvalidModel_0@));
                        return Err(error);
                    },
                    Some(run) => {
                        assert(c.runs[plan.run_id.0] == run.deep_view());
                        if run.kind != RunKind::Optimization {
                            let error = rejected_number(
                                "plan ",
                                id,
                                " must refer to an optimization run",
                            );
                            assert(first_bad_plan(c, id, error->InvalidModel_0@));
                            return Err(error);
                        }
                    },
                }
                if let Some(previous) = plan.supersedes {
                    if !self.plans.contains_key(&previous) {
                        let error = rejected_number("plan ", id, " supersedes a missing plan");
                        assert(first_bad_plan(c, id, error->InvalidModel_0@));
                        return Err(error);
                    }
                }
            }
            i = i + 1;
        }
        assert forall|id: u128| #[trigger] c.plans.contains_key(id) implies plan_reference_fault(
            c,
            id,
        ) is None by {
            assert(keys@.contains(id));
            assert(keys@[keys@.index_of(id)] == id);
        }
        let graph = self.plan_graph();
        proof {
            let g = plan_links(c.plans);
            assert forall|a: u128, b: u128| #[trigger] depends(g, a, b) implies g.contains_key(b) by {
                assert(c.plans.contains_key(a));
                assert(plan_reference_fault(c, a) is None);
            }
        }
        if let Some(id) = find_cycle(&graph) {
            let error = rejected_number("plan supersession cycle contains ", id, "");
            proof {
                if acyclic(plan_links(c.plans)) {
                    acyclic_means_no_cycle(plan_links(c.plans), id);
                }
                assert(plan_cycle(c, id, error->InvalidModel_0@));
            }
            return Err(error);
        }
        Ok(())
    }

    /// Checks everything that records refer to.
    pub fn validate_references(&self) -> (outcome: Result<(), Error>)
        ensures
            outcome is Ok <==> consistent(self.model()),
            outcome matches Err(e) ==> says_inconsistency(e, self.model()),
    {
        self.check_entities()?;
        self.check_relations()?;
        self.check_series()?;
        self.check_runs()?;
        self.check_plans()
    }
}

proof fn lemma_one_more(keys: Seq<u128>, i: int)
    requires
        0 <= i < keys.len(),
    ensures
        forall|k: u128| #[trigger]
            keys.take(i + 1).contains(k) <==> keys.take(i).contains(k) || k == keys[i],
{
    let shorter = keys.take(i);
    let longer = keys.take(i + 1);
    assert forall|k: u128| #[trigger] longer.contains(k) <==> shorter.contains(k) || k == keys[i] by {
        if shorter.contains(k) {
            assert(longer[shorter.index_of(k)] == k);
        }
        if longer.contains(k) && k != keys[i] {
            assert(shorter[longer.index_of(k)] == k);
        }
        assert(longer[i] == keys[i]);
    }
}

/// What is wrong with a point on its own, if anything.
pub open spec fn interval_fault(p: Point) -> Option<Seq<char>> {
    if p.valid_time_end < p.valid_time {
        Some("point interval ends before it starts"@)
    } else if !finite(p.value) {
        Some("point value must be finite"@)
    } else {
        None
    }
}

/// What is wrong with what a point refers to, if anything.
pub open spec fn point_reference_fault(c: CatalogModel, p: Point) -> Option<Seq<char>> {
    if !c.series.contains_key(p.series_id) {
        Some(numbered("point refers to undefined series "@, p.series_id as nat, ""@))
    } else if p.run_id != 0 && !c.runs.contains_key(p.run_id) {
        Some(numbered("point refers to missing run "@, p.run_id as nat, ""@))
    } else {
        None
    }
}

/// The fault of the first point that breaks a rule.
pub open spec fn first_fault(points: Seq<Point>, rule: spec_fn(Point) -> Option<Seq<char>>) -> Option<
    Seq<char>,
>
    decreases points.len(),
{
    if points.len() == 0 {
        None
    } else {
        match first_fault(points.drop_last(), rule) {
            Some(text) => Some(text),
            None => rule(points.last()),
        }
    }
}

pub open spec fn intervals_fault(points: Seq<Point>) -> Option<Seq<char>> {
    first_fault(points, |p: Point| interval_fault(p))
}

/// What is first wrong with points: the points on their own come before what they
/// refer to.
pub open spec fn points_fault(c: CatalogModel, points: Seq<Point>) -> Option<Seq<char>> {
    match intervals_fault(points) {
        Some(text) => Some(text),
        None => first_fault(points, |p: Point| point_reference_fault(c, p)),
    }
}

/// Points that are wrong on their own are refused with the same words, with a catalog
/// or without one, and points that a catalog takes are right on their own.
pub proof fn malformed_points_are_refused_alike(c: CatalogModel, points: Seq<Point>)
    ensures
        intervals_fault(points) is Some ==> points_fault(c, points) == intervals_fault(points),
        points_fault(c, points) is None ==> intervals_fault(points) is None,
{
}

proof fn lemma_first_fault(
    points: Seq<Point>,
    rule: spec_fn(Point) -> Option<Seq<char>>,
    n: int,
)
    requires
        0 <= n <= points.len(),
        first_fault(points.take(n), rule) is Some,
    ensures
        first_fault(points, rule) == first_fault(points.take(n), rule),
    decreases points.len() - n,
{
    if n < points.len() {
        assert(points.take(n + 1).drop_last() =~= points.take(n));
        lemma_first_fault(points, rule, n + 1);
    } else {
        assert(points.take(n) =~= points);
    }
}

/// The rules for points that need no catalog: an interval does not end before it
/// starts, and a value is finite.
#[verifier::loop_isolation(false)]
pub fn validate_point_intervals(points: &[Point]) -> (outcome: Result<(), Error>)
    ensures
        reports_fault(outcome, intervals_fault(points@)),
{
    let ghost rule = |p: Point| interval_fault(p);
    let mut i: usize = 0;
    while i < points.len()
        invariant
            i <= points@.len(),
            first_fault(points@.take(i as int), rule) is None,
        decreases points@.len() - i,
    {
        let point = points[i];
        proof {
            let longer = points@.take(i + 1);
            assert(longer.drop_last() =~= points@.take(i as int));
            assert(longer.last() == point);
            assert(first_fault(longer, rule) == interval_fault(point));
            if interval_fault(point) is Some {
                lemma_first_fault(points@, rule, i + 1);
            }
        }
        if point.valid_time_end < point.valid_time {
            return Err(rejected("point interval ends before it starts"));
        }
        if !point.value.is_finite() {
            return Err(rejected("point value must be finite"));
        }
        i = i + 1;
    }
    assert(points@.take(i as int) =~= points@);
    Ok(())
}

/// The models of some records.
pub open spec fn record_models(records: Seq<Record>) -> Seq<RecordModel> {
    Seq::new(records.len(), |i: int| records[i].deep_view())
}

/// The fault of the first group of points that breaks a rule.
pub open spec fn groups_fault(c: CatalogModel, records: Seq<RecordModel>) -> Option<Seq<char>>
    decreases records.len(),
{
    if records.len() == 0 {
        None
    } else {
        match groups_fault(c, records.drop_last()) {
            Some(text) => Some(text),
            None => match records.last() {
                RecordModel::Points(points) => points_fault(c, points),
                _ => None,
            },
        }
    }
}

proof fn lemma_groups_fault(c: CatalogModel, records: Seq<RecordModel>, n: int)
    requires
        0 <= n <= records.len(),
        groups_fault(c, records.take(n)) is Some,
    ensures
        groups_fault(c, records) == groups_fault(c, records.take(n)),
    decreases records.len() - n,
{
    if n < records.len() {
        assert(records.take(n + 1).drop_last() =~= records.take(n));
        lemma_groups_fault(c, records, n + 1);
    } else {
        assert(records.take(n) =~= records);
    }
}

/// Whether an outcome is that of applying records to a catalog: each record is
/// checked on its own, then all references, then the points.
pub open spec fn applies(
    c: CatalogModel,
    records: Seq<RecordModel>,
    outcome: Result<Catalog, Error>,
) -> bool {
    match after_records(c, records) {
        Err(text) => outcome matches Err(error) && invalid_model(error, text),
        Ok(next) => if !consistent(next) {
            outcome matches Err(error) && says_inconsistency(error, next)
        } else {
            match groups_fault(next, records) {
                Some(text) => outcome matches Err(error) && invalid_model(error, text),
                None => outcome matches Ok(catalog) && catalog.model() == next,
            }
        },
    }
}

/// Whether records hold nothing but points.
pub open spec fn only_points(records: Seq<RecordModel>) -> bool {
    forall|i: int| 0 <= i < records.len() ==> (#[trigger] records[i]) is Points
}

/// Whether an outcome is that of applying records to a catalog that stays in
/// place where records hold nothing but points.
pub open spec fn applies_or_keeps(
    c: CatalogModel,
    records: Seq<RecordModel>,
    outcome: Result<Option<Catalog>, Error>,
) -> bool {
    if only_points(records) {
        match groups_fault(c, records) {
            Some(text) => outcome matches Err(error) && invalid_model(error, text),
            None => outcome matches Ok(none) && none is None,
        }
    } else {
        match outcome {
            Ok(Some(catalog)) => applies(c, records, Ok(catalog)),
            Ok(None) => false,
            Err(error) => applies(c, records, Err(error)),
        }
    }
}

/// Whether an error reports a recovered transaction that cannot be applied.
pub open spec fn reports_recovery(error: Error, offset: u64, cause: Error) -> bool {
    corrupt_at(error, offset, "invalid recovered transaction: "@ + error_text(cause))
}

impl Catalog {
    #[verifier::loop_isolation(false)]
    fn validate_points(&self, points: &[Point]) -> (outcome: Result<(), Error>)
        ensures
            reports_fault(outcome, points_fault(self.model(), points@)),
    {
        broadcast use group_btree_axioms;

        let ghost c = self.model();
        validate_point_intervals(points)?;
        let ghost rule = |p: Point| point_reference_fault(c, p);
        let mut i: usize = 0;
        while i < points.len()
            invariant
                i <= points@.len(),
                first_fault(points@.take(i as int), rule) is None,
            decreases points@.len() - i,
        {
            let point = points[i];
            proof {
                let longer = points@.take(i + 1);
                assert(longer.drop_last() =~= points@.take(i as int));
                assert(longer.last() == point);
                assert(first_fault(longer, rule) == point_reference_fault(c, point));
                if point_reference_fault(c, point) is Some {
                    lemma_first_fault(points@, rule, i + 1);
                }
            }
            if !self.series.contains_key(&point.series_id) {
                return Err(
                    rejected_number("point refers to undefined series ", point.series_id as u128, ""),
                );
            }
            if point.run_id != 0 && !self.runs.contains_key(&point.run_id) {
                return Err(rejected_number("point refers to missing run ", point.run_id, ""));
            }
            i = i + 1;
        }
        assert(points@.take(i as int) =~= points@);
        Ok(())
    }

    #[verifier::loop_isolation(false)]
    fn validate_groups(&self, records: &[Record]) -> (outcome: Result<(), Error>)
        ensures
            reports_fault(outcome, groups_fault(self.model(), record_models(records@))),
    {
        let ghost c = self.model();
        let ghost models = record_models(records@);
        let mut i: usize = 0;
        while i < records.len()
            invariant
                i <= records@.len(),
                groups_fault(c, models.take(i as int)) is None,
            decreases records@.len() - i,
        {
            proof {
                assert(models.take(i + 1).drop_last() =~= models.take(i as int));
                assert(models.take(i + 1).last() == records@[i as int].deep_view());
                if groups_fault(c, models.take(i + 1)) is Some {
                    lemma_groups_fault(c, models, i + 1);
                }
            }
            if let Record::Points(points) = &records[i] {
                self.validate_points(points.as_slice())?;
            }
            i = i + 1;
        }
        assert(models.take(i as int) =~= models);
        Ok(())
    }

    /// The catalog after `records`, where all of them may be applied. The catalog
    /// itself stays as it is.
    #[verifier::loop_isolation(false)]
    pub fn validate_and_apply(&self, records: &[Record]) -> (outcome: Result<Catalog, Error>)
        ensures
            applies(self.model(), record_models(records@), outcome),
    {
        let ghost c = self.model();
        let ghost models = record_models(records@);
        let mut candidate = self.copy();
        let mut i: usize = 0;
        while i < records.len()
            invariant
                i <= records@.len(),
                after_records(c, models.take(i as int)) == Ok::<CatalogModel, Seq<char>>(
                    candidate.model(),
                ),
            decreases records@.len() - i,
        {
            proof {
                assert(models.take(i + 1).drop_last() =~= models.take(i as int));
                assert(models.take(i + 1).last() == records@[i as int].deep_view());
                if after_records(c, models.take(i + 1)) is Err {
                    lemma_fault_stays(c, models, i + 1);
                }
            }
            match candidate.apply(&records[i]) {
                Ok(()) => {},
                Err(error) => {
                    return Err(error);
                },
            }
            i = i + 1;
        }
        assert(models.take(i as int) =~= models);
        match candidate.validate_references() {
            Ok(()) => {},
            Err(error) => {
                return Err(error);
            },
        }
        match candidate.validate_groups(records) {
            Ok(()) => {},
            Err(error) => {
                return Err(error);
            },
        }
        Ok(candidate)
    }

    /// The catalog after `records`. Point-only transactions leave the catalog
    /// unchanged, so that ingest does not copy it on every telemetry batch.
    #[verifier::loop_isolation(false)]
    pub fn apply_records(&self, records: &[Record]) -> (outcome: Result<Option<Catalog>, Error>)
        ensures
            applies_or_keeps(self.model(), record_models(records@), outcome),
    {
        let ghost models = record_models(records@);
        let mut points_only: bool = true;
        let mut i: usize = 0;
        while i < records.len()
            invariant
                i <= records@.len(),
                points_only == only_points(models.take(i as int)),
            decreases records@.len() - i,
        {
            proof {
                let shorter = models.take(i as int);
                let longer = models.take(i + 1);
                assert(longer =~= shorter.push(records@[i as int].deep_view()));
                assert(forall|k: int| 0 <= k < shorter.len() ==> shorter[k] == longer[k]);
                assert(longer[i as int] == records@[i as int].deep_view());
            }
            match &records[i] {
                Record::Points(_) => {},
                _ => {
                    points_only = false;
                },
            }
            i = i + 1;
        }
        assert(models.take(i as int) =~= models);
        if points_only {
            match self.validate_groups(records) {
                Ok(()) => {},
                Err(error) => {
                    return Err(error);
                },
            }
            return Ok(None);
        }
        match self.validate_and_apply(records) {
            Ok(catalog) => Ok(Some(catalog)),
            Err(error) => Err(error),
        }
    }

    /// Applies a transaction that was read back from the log at `offset`.
    pub fn apply_recovered(&mut self, records: &[Record], offset: u64) -> (outcome: Result<
        (),
        Error,
    >)
        ensures
            outcome is Ok ==> if only_points(record_models(records@)) {
                final(self).model() == old(self).model() && groups_fault(
                    old(self).model(),
                    record_models(records@),
                ) is None
            } else {
                exists|next: Catalog|
                    #![trigger next.model()]
                    applies(old(self).model(), record_models(records@), Ok(next))
                        && final(self).model() == next.model()
            },
            outcome matches Err(error) ==> final(self).model() == old(self).model() && exists|
                cause: Error,
            | #[trigger]
                applies_or_keeps(old(self).model(), record_models(records@), Err(cause))
                    && reports_recovery(error, offset, cause),
    {
        match self.apply_records(records) {
            Ok(None) => Ok(()),
            Ok(Some(candidate)) => {
                assert(applies(self.model(), record_models(records@), Ok(candidate)));
                *self = candidate;
                Ok(())
            },
            Err(error) => {
                let mut reason = String::new();
                reason.append("invalid recovered transaction: ");
                let message = error.message();
                reason.append(message.as_str());
                assert(reason@ =~= "invalid recovered transaction: "@ + error_text(error));
                let report = Error::Corruption { offset, reason };
                assert(applies_or_keeps(self.model(), record_models(records@), Err(error))
                    && reports_recovery(report, offset, error));
                Err(report)
            },
        }
    }

    /// A catalog that holds the same.
    fn copy(&self) -> (copy: Catalog)
        ensures
            copy.model() == self.model(),
    {
        Catalog {
            entities: self.entities.clone(),
            relations: self.relations.clone(),
            series: self.series.clone(),
            runs: self.runs.clone(),
            plans: self.plans.clone(),
        }
    }
}

impl Default for Catalog {
    fn default() -> (catalog: Self)
        ensures
            catalog.model() == empty_catalog(),
    {
        let catalog = Catalog {
            entities: BTreeMap::new(),
            relations: BTreeMap::new(),
            series: BTreeMap::new(),
            runs: BTreeMap::new(),
            plans: BTreeMap::new(),
        };
        assert(catalog.model() =~= empty_catalog());
        catalog
    }
}

pub open spec fn ascending_series(keys: Seq<u64>, ids: Set<u64>) -> bool {
    &&& forall|i: int, j: int|
        #![trigger keys[i], keys[j]]
        0 <= i < j < keys.len() ==> keys[i] < keys[j]
    &&& forall|k: u64| #[trigger] keys.contains(k) <==> ids.contains(k)
}

/// What a map holds under some keys.
pub open spec fn picked<K, V>(map: Map<K, V>, keys: Seq<K>) -> Seq<V> {
    Seq::new(keys.len(), |i: int| map[keys[i]])
}

/// The order in which the records of a catalog are written out.
pub struct SnapshotOrder {
    pub entities: Seq<u128>,
    pub relations: Seq<u128>,
    pub series: Seq<u64>,
    pub runs: Seq<u128>,
    pub plans: Seq<u128>,
}

/// Whether an order puts records behind what they depend on, and otherwise goes by
/// identifier.
pub open spec fn orders(order: SnapshotOrder, c: CatalogModel) -> bool {
    &&& snapshot_ordered(entity_links(c.entities), order.entities)
    &&& ascending_ids(order.relations, c.relations.dom())
    &&& ascending_series(order.series, c.series.dom())
    &&& snapshot_ordered(run_links(c.runs), order.runs)
    &&& snapshot_ordered(plan_links(c.plans), order.plans)
}

/// The records of a catalog in some order.
pub open spec fn written(c: CatalogModel, order: SnapshotOrder) -> Seq<RecordModel> {
    entity_records(picked(c.entities, order.entities)) + relation_records(
        picked(c.relations, order.relations),
    ) + series_records(picked(c.series, order.series)) + run_records(picked(c.runs, order.runs))
        + plan_records(picked(c.plans, order.plans))
}

/// Whether records are those of a catalog, in an order in which they can be
/// applied.
pub open spec fn is_snapshot(c: CatalogModel, records: Seq<RecordModel>) -> bool {
    exists|order: SnapshotOrder| #[trigger] orders(order, c) && records == written(c, order)
}

proof fn lemma_entities_acyclic(c: CatalogModel)
    requires
        entities_stand(c),
        c.entities.dom().finite(),
    ensures
        acyclic(entity_links(c.entities)),
{
    let g = entity_links(c.entities);
    assert(g.dom() =~= c.entities.dom());
    assert forall|a: u128| #[trigger] g.contains_key(a) implies g[a].len() <= 1 && walk_ends(
        g,
        a,
    ) by {
        assert(c.entities.contains_key(a));
        assert(entity_stands(c, a));
    }
    ending_walks_are_acyclic(g);
}

impl Catalog {
    /// Catalog records in an apply-safe order so that a compact log can rebuild the
    /// current identity set without replaying historical frames.
    #[verifier::loop_isolation(false)]
    #[verifier::rlimit(40)]
    pub fn snapshot_records(&self) -> (outcome: Result<Vec<Record>, Error>)
        ensures
            outcome is Ok <==> consistent(self.model()),
            outcome matches Ok(records) ==> is_snapshot(self.model(), record_models(records@)),
            outcome matches Err(e) ==> says_inconsistency(e, self.model()),
    {
        broadcast use group_btree_axioms;

        let ghost c = self.model();
        match self.validate_references() {
            Ok(()) => {},
            Err(error) => {
                return Err(error);
            },
        }
        proof {
            assert(c.entities.dom() =~= self.entities@.dom());
            lemma_entities_acyclic(c);
        }
        let mut records: Vec<Record> = Vec::new();
        let graph = self.entity_graph();
        let entity_order = match snapshot_order(&graph) {
            Some(order) => order,
            None => {
                return Err(rejected("entity dependency graph cannot be snapshotted"));
            },
        };
        let ghost part = entity_records(picked(c.entities, entity_order@));
        assert(record_models(records@) =~= part.take(0));
        let mut i: usize = 0;
        while i < entity_order.len()
            invariant
                i <= entity_order@.len(),
                record_models(records@) == part.take(i as int),
            decreases entity_order@.len() - i,
        {
            assert(entity_order@.contains(entity_order@[i as int]));
            assert(c.entities.contains_key(entity_order@[i as int]));
            if let Some(entity) = self.entities.get(&entity_order[i]) {
                let ghost before = record_models(records@);
                records.push(Record::Entity(entity.clone()));
                assert(record_models(records@) =~= before.push(part[i as int]));
            }
            i = i + 1;
            assert(part.take(i as int) =~= part.take(i - 1).push(part[i - 1]));
        }
        assert(part.take(i as int) =~= part);
        let ghost done = part;

        let relation_order = u128_keys(&self.relations);
        let ghost part = relation_records(picked(c.relations, relation_order@));
        assert(record_models(records@) =~= done + part.take(0));
        i = 0;
        while i < relation_order.len()
            invariant
                i <= relation_order@.len(),
                record_models(records@) == done + part.take(i as int),
            decreases relation_order@.len() - i,
        {
            assert(relation_order@.contains(relation_order@[i as int]));
            if let Some(relation) = self.relations.get(&relation_order[i]) {
                let ghost before = record_models(records@);
                records.push(Record::Relation(relation.clone()));
                assert(record_models(records@) =~= before.push(part[i as int]));
            }
            i = i + 1;
            assert(done + part.take(i as int) =~= (done + part.take(i - 1)).push(part[i - 1]));
        }
        assert(part.take(i as int) =~= part);
        let ghost done = done + part;

        let series_order = u64_keys(&self.series);
        let ghost part = series_records(picked(c.series, series_order@));
        assert(record_models(records@) =~= done + part.take(0));
        i = 0;
        while i < series_order.len()
            invariant
                i <= series_order@.len(),
                record_models(records@) == done + part.take(i as int),
            decreases series_order@.len() - i,
        {
            assert(series_order@.contains(series_order@[i as int]));
            if let Some(series) = self.series.get(&series_order[i]) {
                let ghost before = record_models(records@);
                records.push(Record::Series(series.clone()));
                assert(record_models(records@) =~= before.push(part[i as int]));
            }
            i = i + 1;
            assert(done + part.take(i as int) =~= (done + part.take(i - 1)).push(part[i - 1]));
        }
        assert(part.take(i as int) =~= part);
        let ghost done = done + part;

        let graph = self.run_graph();
        let run_order = match snapshot_order(&graph) {
            Some(order) => order,
            None => {
                return Err(rejected("run dependency graph cannot be snapshotted"));
            },
        };
        let ghost part = run_records(picked(c.runs, run_order@));
        assert(record_models(records@) =~= done + part.take(0));
        i = 0;
        while i < run_order.len()
            invariant
                i <= run_order@.len(),
                record_models(records@) == done + part.take(i as int),
            decreases run_order@.len() - i,
        {
            assert(run_order@.contains(run_order@[i as int]));
            assert(c.runs.contains_key(run_order@[i as int]));
            if let Some(run) = self.runs.get(&run_order[i]) {
                let ghost before = record_models(records@);
                records.push(Record::Run(run.clone()));
                assert(record_models(records@) =~= before.push(part[i as int]));
            }
            i = i + 1;
            assert(done + part.take(i as int) =~= (done + part.take(i - 1)).push(part[i - 1]));
        }
        assert(part.take(i as int) =~= part);
        let ghost done = done + part;

        let graph = self.plan_graph();
        let plan_order = match snapshot_order(&graph) {
            Some(order) => order,
            None => {
                return Err(rejected("plan dependency graph cannot be snapshotted"));
            },
        };
        let ghost part = plan_records(picked(c.plans, plan_order@));
        assert(record_models(records@) =~= done + part.take(0));
        i = 0;
        while i < plan_order.len()
            invariant
                i <= plan_order@.len(),
                record_models(records@) == done + part.take(i as int),
            decreases plan_order@.len() - i,
        {
            assert(plan_order@.contains(plan_order@[i as int]));
            assert(c.plans.contains_key(plan_order@[i as int]));
            if let Some(plan) = self.plans.get(&plan_order[i]) {
                let ghost before = record_models(records@);
                records.push(Record::Plan(plan.clone()));
                assert(record_models(records@) =~= before.push(part[i as int]));
            }
            i = i + 1;
            assert(done + part.take(i as int) =~= (done + part.take(i - 1)).push(part[i - 1]));
        }
        assert(part.take(i as int) =~= part);
        proof {
            let order = SnapshotOrder {
                entities: entity_order@,
                relations: relation_order@,
                series: series_order@,
                runs: run_order@,
                plans: plan_order@,
            };
            assert(ascending_ids(order.relations, c.relations.dom())) by {
                assert forall|k: u128| #[trigger]
                    relation_order@.contains(k) <==> c.relations.dom().contains(k) by {
                    assert(relation_order@.contains(k) <==> self.relations@.contains_key(k));
                }
            }
            assert(ascending_series(order.series, c.series.dom())) by {
                assert forall|k: u64| #[trigger]
                    series_order@.contains(k) <==> c.series.dom().contains(k) by {
                    assert(series_order@.contains(k) <==> self.series@.contains_key(k));
                }
            }
            assert(orders(order, c));
            assert(record_models(records@) =~= written(c, order));
        }
        Ok(records)
    }

    pub fn entity(&self, id: EntityId) -> (found: Option<&Entity>)
        ensures
            found is Some <==> self.model().entities.contains_key(id.0),
            found matches Some(entity) ==> entity.deep_view() == self.model().entities[id.0],
    {
        broadcast use group_btree_axioms;

        self.entities.get(&id.0)
    }

    pub fn relation(&self, id: RelationId) -> (found: Option<&Relation>)
        ensures
            found is Some <==> self.model().relations.contains_key(id.0),
            found matches Some(relation) ==> relation.deep_view() == self.model().relations[id.0],
    {
        broadcast use group_btree_axioms;

        self.relations.get(&id.0)
    }

    pub fn series(&self, id: u64) -> (found: Option<&SeriesDefinition>)
        ensures
            found is Some <==> self.model().series.contains_key(id),
            found matches Some(series) ==> series.deep_view() == self.model().series[id],
    {
        broadcast use group_btree_axioms;

        self.series.get(&id)
    }

    pub fn run(&self, id: RunId) -> (found: Option<&Run>)
        ensures
            found is Some <==> self.model().runs.contains_key(id.0),
            found matches Some(run) ==> run.deep_view() == self.model().runs[id.0],
    {
        broadcast use group_btree_axioms;

        self.runs.get(&id.0)
    }

    pub fn plan(&self, id: u128) -> (found: Option<&Plan>)
        ensures
            found is Some <==> self.model().plans.contains_key(id),
            found matches Some(plan) ==> plan.deep_view() == self.model().plans[id],
    {
        broadcast use group_btree_axioms;

        self.plans.get(&id)
    }

    /// The identifiers of the entities, in ascending order.
    pub fn entities(&self) -> (ids: Vec<u128>)
        ensures
            ascending_ids(ids@, self.model().entities.dom()),
    {
        let ids = u128_keys(&self.entities);
        assert forall|k: u128| #[trigger] ids@.contains(k) <==> self.model().entities.dom().contains(
            k,
        ) by {
            assert(ids@.contains(k) <==> self.entities@.contains_key(k));
        }
        ids
    }

    /// The identifiers of the relations, in ascending order.
    pub fn relations(&self) -> (ids: Vec<u128>)
        ensures
            ascending_ids(ids@, self.model().relations.dom()),
    {
        let ids = u128_keys(&self.relations);
        assert forall|k: u128| #[trigger] ids@.contains(k) <==> self.model().relations.dom().contains(
            k,
        ) by {
            assert(ids@.contains(k) <==> self.relations@.contains_key(k));
        }
        ids
    }

    /// The identifiers of the series, in ascending order.
    pub fn series_definitions(&self) -> (ids: Vec<u64>)
        ensures
            ascending_series(ids@, self.model().series.dom()),
    {
        let ids = u64_keys(&self.series);
        assert forall|k: u64| #[trigger] ids@.contains(k) <==> self.model().series.dom().contains(
            k,
        ) by {
            assert(ids@.contains(k) <==> self.series@.contains_key(k));
        }
        ids
    }

    /// The identifiers of the runs, in ascending order.
    pub fn runs(&self) -> (ids: Vec<u128>)
        ensures
            ascending_ids(ids@, self.model().runs.dom()),
    {
        let ids = u128_keys(&self.runs);
        assert forall|k: u128| #[trigger] ids@.contains(k) <==> self.model().runs.dom().contains(
            k,
        ) by {
            assert(ids@.contains(k) <==> self.runs@.contains_key(k));
        }
        ids
    }

    /// The identifiers of the plans, in ascending order.
    pub fn plans(&self) -> (ids: Vec<u128>)
        ensures
            ascending_ids(ids@, self.model().plans.dom()),
    {
        let ids = u128_keys(&self.plans);
        assert forall|k: u128| #[trigger] ids@.contains(k) <==> self.model().plans.dom().contains(
            k,
        ) by {
            assert(ids@.contains(k) <==> self.plans@.contains_key(k));
        }
        ids
    }

    /// How many records of each kind there are.
    pub fn stats(&self) -> (stats: CatalogStats)
        ensures
            stats.entities == self.model().entities.dom().len(),
            stats.relations == self.model().relations.dom().len(),
            stats.series == self.model().series.dom().len(),
            stats.runs == self.model().runs.dom().len(),
            stats.plans == self.model().plans.dom().len(),
    {
        broadcast use group_btree_axioms;

        proof {
            assert(self.model().entities.dom() =~= self.entities@.dom());
            assert(self.model().relations.dom() =~= self.relations@.dom());
            assert(self.model().series.dom() =~= self.series@.dom());
            assert(self.model().runs.dom() =~= self.runs@.dom());
            assert(self.model().plans.dom() =~= self.plans@.dom());
        }
        CatalogStats {
            entities: self.entities.len(),
            relations: self.relations.len(),
            series: self.series.len(),
            runs: self.runs.len(),
            plans: self.plans.len(),
        }
    }
}

/// Whether every record of a catalog stands under its identifier and keeps the
/// rules that it is held to on its own.
pub open spec fn keeps_own_rules(c: CatalogModel) -> bool {
    &&& forall|id: u128| #[trigger]
        c.entities.contains_key(id) ==> c.entities[id].id.0 == id && entity_fault(c.entities[id])
            is None
    &&& forall|id: u128| #[trigger]
        c.relations.contains_key(id) ==> c.relations[id].id.0 == id && relation_fault(
            c.relations[id],
        ) is None
    &&& forall|id: u64| #[trigger]
        c.series.contains_key(id) ==> c.series[id].id == id && series_record_fault(c.series[id])
            is None
    &&& forall|id: u128| #[trigger]
        c.runs.contains_key(id) ==> c.runs[id].id.0 == id && run_fault(c.runs[id]) is None
    &&& forall|id: u128| #[trigger]
        c.plans.contains_key(id) ==> c.plans[id].id == id && plan_record_fault(c.plans[id]) is None
}

/// Records that are applied leave every record of the catalog under its
/// identifier and within its own rules.
pub proof fn records_keep_own_rules(c: CatalogModel, records: Seq<RecordModel>)
    requires
        keeps_own_rules(c),
        after_records(c, records) is Ok,
    ensures
        keeps_own_rules(after_records(c, records)->Ok_0),
    decreases records.len(),
{
    if records.len() > 0 {
        records_keep_own_rules(c, records.drop_last());
    }
}

/// Applying two groups of records is applying one behind the other.
pub proof fn records_apply_in_turn(c: CatalogModel, a: Seq<RecordModel>, b: Seq<RecordModel>)
    requires
        after_records(c, a) is Ok,
    ensures
        after_records(c, a + b) == after_records(after_records(c, a)->Ok_0, b),
    decreases b.len(),
{
    if b.len() == 0 {
        assert(a + b =~= a);
    } else {
        assert((a + b).drop_last() =~= a + b.drop_last());
        records_apply_in_turn(c, a, b.drop_last());
    }
}

/// The part of a map under the first `n` of some keys.
spec fn first_of<K, V>(map: Map<K, V>, keys: Seq<K>, n: int) -> Map<K, V> {
    map.restrict(keys.take(n).to_set())
}

proof fn lemma_first_of<K, V>(map: Map<K, V>, keys: Seq<K>, n: int)
    requires
        0 <= n < keys.len(),
        keys.no_duplicates(),
        forall|k: K| #[trigger] keys.contains(k) ==> map.contains_key(k),
    ensures
        first_of(map, keys, n + 1) == first_of(map, keys, n).insert(keys[n], map[keys[n]]),
        !first_of(map, keys, n).contains_key(keys[n]),
        map.contains_key(keys[n]),
{
    let a = keys.take(n);
    let b = keys.take(n + 1);
    assert(b =~= a.push(keys[n]));
    assert(keys.contains(keys[n]));
    assert forall|k: K| b.to_set().contains(k) <==> a.to_set().contains(k) || k == keys[n] by {
        if a.contains(k) {
            assert(b[a.index_of(k)] == k);
        }
        if b.contains(k) && k != keys[n] {
            assert(a[b.index_of(k)] == k);
        }
        assert(b[n] == keys[n]);
    }
    assert(!a.contains(keys[n])) by {
        if a.contains(keys[n]) {
            assert(keys[a.index_of(keys[n])] == keys[n]);
        }
    }
    assert(first_of(map, keys, n + 1) =~= first_of(map, keys, n).insert(keys[n], map[keys[n]]));
}

proof fn lemma_all_of<K, V>(map: Map<K, V>, keys: Seq<K>)
    requires
        forall|k: K| #[trigger] keys.contains(k) <==> map.contains_key(k),
    ensures
        first_of(map, keys, keys.len() as int) == map,
        first_of(map, keys, 0) == Map::<K, V>::empty(),
{
    assert(keys.take(keys.len() as int) =~= keys);
    assert(first_of(map, keys, keys.len() as int) =~= map);
    assert(first_of(map, keys, 0) =~= Map::<K, V>::empty());
}

proof fn lemma_write_entities(c: CatalogModel, base: CatalogModel, keys: Seq<u128>, n: int)
    requires
        keeps_own_rules(c),
        0 <= n <= keys.len(),
        keys.no_duplicates(),
        forall|k: u128| #[trigger] keys.contains(k) <==> c.entities.contains_key(k),
        base.entities == Map::<u128, EntityModel>::empty(),
    ensures
        after_records(base, entity_records(picked(c.entities, keys)).take(n)) == Ok::<
            CatalogModel,
            Seq<char>,
        >(CatalogModel { entities: first_of(c.entities, keys, n), ..base }),
    decreases n,
{
    let all = entity_records(picked(c.entities, keys));
    if n == 0 {
        lemma_all_of(c.entities, keys);
    } else {
        lemma_write_entities(c, base, keys, n - 1);
        lemma_first_of(c.entities, keys, n - 1);
        assert(all.take(n).drop_last() =~= all.take(n - 1));
        assert(all.take(n).last() == all[n - 1]);
    }
}

proof fn lemma_write_relations(c: CatalogModel, base: CatalogModel, keys: Seq<u128>, n: int)
    requires
        keeps_own_rules(c),
        0 <= n <= keys.len(),
        keys.no_duplicates(),
        forall|k: u128| #[trigger] keys.contains(k) <==> c.relations.contains_key(k),
        base.relations == Map::<u128, RelationModel>::empty(),
    ensures
        after_records(base, relation_records(picked(c.relations, keys)).take(n)) == Ok::<
            CatalogModel,
            Seq<char>,
        >(CatalogModel { relations: first_of(c.relations, keys, n), ..base }),
    decreases n,
{
    let all = relation_records(picked(c.relations, keys));
    if n == 0 {
        lemma_all_of(c.relations, keys);
    } else {
        lemma_write_relations(c, base, keys, n - 1);
        lemma_first_of(c.relations, keys, n - 1);
        assert(all.take(n).drop_last() =~= all.take(n - 1));
        assert(all.take(n).last() == all[n - 1]);
    }
}

proof fn lemma_write_series(c: CatalogModel, base: CatalogModel, keys: Seq<u64>, n: int)
    requires
        keeps_own_rules(c),
        0 <= n <= keys.len(),
        keys.no_duplicates(),
        forall|k: u64| #[trigger] keys.contains(k) <==> c.series.contains_key(k),
        base.series == Map::<u64, SeriesModel>::empty(),
    ensures
        after_records(base, series_records(picked(c.series, keys)).take(n)) == Ok::<
            CatalogModel,
            Seq<char>,
        >(CatalogModel { series: first_of(c.series, keys, n), ..base }),
    decreases n,
{
    let all = series_records(picked(c.series, keys));
    if n == 0 {
        lemma_all_of(c.series, keys);
    } else {
        lemma_write_series(c, base, keys, n - 1);
        lemma_first_of(c.series, keys, n - 1);
        assert(all.take(n).drop_last() =~= all.take(n - 1));
        assert(all.take(n).last() == all[n - 1]);
    }
}

proof fn lemma_write_runs(c: CatalogModel, base: CatalogModel, keys: Seq<u128>, n: int)
    requires
        keeps_own_rules(c),
        0 <= n <= keys.len(),
        keys.no_duplicates(),
        forall|k: u128| #[trigger] keys.contains(k) <==> c.runs.contains_key(k),
        base.runs == Map::<u128, RunModel>::empty(),
    ensures
        after_records(base, run_records(picked(c.runs, keys)).take(n)) == Ok::<
            CatalogModel,
            Seq<char>,
        >(CatalogModel { runs: first_of(c.runs, keys, n), ..base }),
    decreases n,
{
    let all = run_records(picked(c.runs, keys));
    if n == 0 {
        lemma_all_of(c.runs, keys);
    } else {
        lemma_write_runs(c, base, keys, n - 1);
        lemma_first_of(c.runs, keys, n - 1);
        assert(all.take(n).drop_last() =~= all.take(n - 1));
        assert(all.take(n).last() == all[n - 1]);
    }
}

proof fn lemma_write_plans(c: CatalogModel, base: CatalogModel, keys: Seq<u128>, n: int)
    requires
        keeps_own_rules(c),
        0 <= n <= keys.len(),
        keys.no_duplicates(),
        forall|k: u128| #[trigger] keys.contains(k) <==> c.plans.contains_key(k),
        base.plans == Map::<u128, PlanModel>::empty(),
    ensures
        after_records(base, plan_records(picked(c.plans, keys)).take(n)) == Ok::<
            CatalogModel,
            Seq<char>,
        >(CatalogModel { plans: first_of(c.plans, keys, n), ..base }),
    decreases n,
{
    let all = plan_records(picked(c.plans, keys));
    if n == 0 {
        lemma_all_of(c.plans, keys);
    } else {
        lemma_write_plans(c, base, keys, n - 1);
        lemma_first_of(c.plans, keys, n - 1);
        assert(all.take(n).drop_last() =~= all.take(n - 1));
        assert(all.take(n).last() == all[n - 1]);
    }
}

/// Applied to an empty catalog, the records of a snapshot rebuild the catalog that
/// they were taken from.
pub proof fn snapshot_rebuilds(c: CatalogModel, records: Seq<RecordModel>)
    requires
        keeps_own_rules(c),
        is_snapshot(c, records),
    ensures
        after_records(empty_catalog(), records) == Ok::<CatalogModel, Seq<char>>(c),
{
    let order = choose|order: SnapshotOrder| #[trigger]
        orders(order, c) && records == written(c, order);
    let n = Progress {
        entities: order.entities.len() as int,
        relations: order.relations.len() as int,
        series: order.series.len() as int,
        runs: order.runs.len() as int,
        plans: order.plans.len() as int,
    };
    lemma_lists_all(c, order);
    lemma_parts_apply(c, order, n);
    lemma_all_of(c.entities, order.entities);
    lemma_all_of(c.relations, order.relations);
    lemma_all_of(c.series, order.series);
    lemma_all_of(c.runs, order.runs);
    lemma_all_of(c.plans, order.plans);
    assert(records =~= written_part(c, order, n));
}

/// How much of each part of a snapshot has been applied.
struct Progress {
    entities: int,
    relations: int,
    series: int,
    runs: int,
    plans: int,
}

/// Whether one part is finished before what refers to it begins.
spec fn in_turn(order: SnapshotOrder, n: Progress) -> bool {
    &&& 0 <= n.entities <= order.entities.len()
    &&& 0 <= n.relations <= order.relations.len()
    &&& 0 <= n.series <= order.series.len()
    &&& 0 <= n.runs <= order.runs.len()
    &&& 0 <= n.plans <= order.plans.len()
    &&& n.relations > 0 ==> n.entities == order.entities.len()
    &&& n.series > 0 ==> n.entities == order.entities.len() && n.relations
        == order.relations.len()
    &&& n.plans > 0 ==> n.runs == order.runs.len()
}

/// The part of a catalog that has been applied.
spec fn applied_part(c: CatalogModel, order: SnapshotOrder, n: Progress) -> CatalogModel {
    CatalogModel {
        entities: first_of(c.entities, order.entities, n.entities),
        relations: first_of(c.relations, order.relations, n.relations),
        series: first_of(c.series, order.series, n.series),
        runs: first_of(c.runs, order.runs, n.runs),
        plans: first_of(c.plans, order.plans, n.plans),
    }
}

/// The records that have been applied.
spec fn written_part(c: CatalogModel, order: SnapshotOrder, n: Progress) -> Seq<RecordModel> {
    entity_records(picked(c.entities, order.entities)).take(n.entities) + relation_records(
        picked(c.relations, order.relations),
    ).take(n.relations) + series_records(picked(c.series, order.series)).take(n.series)
        + run_records(picked(c.runs, order.runs)).take(n.runs) + plan_records(
        picked(c.plans, order.plans),
    ).take(n.plans)
}

/// Whether an order holds the identifiers of a catalog, each once.
spec fn lists_all(order: SnapshotOrder, c: CatalogModel) -> bool {
    &&& order.entities.no_duplicates() && order.relations.no_duplicates()
        && order.series.no_duplicates() && order.runs.no_duplicates()
        && order.plans.no_duplicates()
    &&& forall|k: u128| #[trigger] order.entities.contains(k) <==> c.entities.contains_key(k)
    &&& forall|k: u128| #[trigger] order.relations.contains(k) <==> c.relations.contains_key(k)
    &&& forall|k: u64| #[trigger] order.series.contains(k) <==> c.series.contains_key(k)
    &&& forall|k: u128| #[trigger] order.runs.contains(k) <==> c.runs.contains_key(k)
    &&& forall|k: u128| #[trigger] order.plans.contains(k) <==> c.plans.contains_key(k)
}

proof fn lemma_lists_all(c: CatalogModel, order: SnapshotOrder)
    requires
        orders(order, c),
    ensures
        lists_all(order, c),
{
    assert forall|k: u128| #[trigger] order.entities.contains(k) <==> c.entities.contains_key(k) by {
        assert(order.entities.contains(k) <==> entity_links(c.entities).contains_key(k));
    }
    assert forall|k: u128| #[trigger] order.relations.contains(k) <==> c.relations.contains_key(
        k,
    ) by {
        assert(order.relations.contains(k) <==> c.relations.dom().contains(k));
    }
    assert forall|k: u64| #[trigger] order.series.contains(k) <==> c.series.contains_key(k) by {
        assert(order.series.contains(k) <==> c.series.dom().contains(k));
    }
    assert forall|k: u128| #[trigger] order.runs.contains(k) <==> c.runs.contains_key(k) by {
        assert(order.runs.contains(k) <==> run_links(c.runs).contains_key(k));
    }
    assert forall|k: u128| #[trigger] order.plans.contains(k) <==> c.plans.contains_key(k) by {
        assert(order.plans.contains(k) <==> plan_links(c.plans).contains_key(k));
    }
}

/// The first records of each part are applied without a fault.
proof fn lemma_parts_apply(c: CatalogModel, order: SnapshotOrder, n: Progress)
    requires
        keeps_own_rules(c),
        lists_all(order, c),
        0 <= n.entities <= order.entities.len(),
        0 <= n.relations <= order.relations.len(),
        0 <= n.series <= order.series.len(),
        0 <= n.runs <= order.runs.len(),
        0 <= n.plans <= order.plans.len(),
    ensures
        after_records(empty_catalog(), written_part(c, order, n)) == Ok::<CatalogModel, Seq<char>>(
            applied_part(c, order, n),
        ),
{
    let e = entity_records(picked(c.entities, order.entities)).take(n.entities);
    let r = relation_records(picked(c.relations, order.relations)).take(n.relations);
    let s = series_records(picked(c.series, order.series)).take(n.series);
    let u = run_records(picked(c.runs, order.runs)).take(n.runs);
    let p = plan_records(picked(c.plans, order.plans)).take(n.plans);
    let c0 = empty_catalog();
    let c1 = CatalogModel { entities: first_of(c.entities, order.entities, n.entities), ..c0 };
    let c2 = CatalogModel { relations: first_of(c.relations, order.relations, n.relations), ..c1 };
    let c3 = CatalogModel { series: first_of(c.series, order.series, n.series), ..c2 };
    let c4 = CatalogModel { runs: first_of(c.runs, order.runs, n.runs), ..c3 };
    lemma_write_entities(c, c0, order.entities, n.entities);
    lemma_write_relations(c, c1, order.relations, n.relations);
    records_apply_in_turn(c0, e, r);
    lemma_write_series(c, c2, order.series, n.series);
    records_apply_in_turn(c0, e + r, s);
    lemma_write_runs(c, c3, order.runs, n.runs);
    records_apply_in_turn(c0, e + r + s, u);
    lemma_write_plans(c, c4, order.plans, n.plans);
    records_apply_in_turn(c0, e + r + s + u, p);
}

/// What a record depends on stands before it.
proof fn lemma_first_is_closed<V>(
    map: Map<u128, V>,
    g: Links,
    order: Seq<u128>,
    n: int,
    a: u128,
    b: u128,
)
    requires
        snapshot_ordered(g, order),
        g.dom() == map.dom(),
        0 <= n <= order.len(),
        first_of(map, order, n).contains_key(a),
        depends(g, a, b),
        map.contains_key(b),
    ensures
        first_of(map, order, n).contains_key(b),
{
    let some = order.take(n);
    assert(some.contains(a));
    let i = some.index_of(a);
    assert(order[i] == a);
    dependencies_come_first(g, order, i, b);
    let j = choose|j: int| 0 <= j < i && #[trigger] order[j] == b;
    assert(some[j] == b);
    assert(some.to_set().contains(b));
}

/// The first entities of a snapshot stand.
proof fn lemma_first_entities_stand(c: CatalogModel, order: SnapshotOrder, n: Progress)
    requires
        entities_stand(c),
        orders(order, c),
        in_turn(order, n),
    ensures
        entities_stand(applied_part(c, order, n)),
{
    let d = applied_part(c, order, n);
    let g = entity_links(c.entities);
    let h = entity_links(d.entities);
    assert(g.dom() =~= c.entities.dom());
    assert forall|id: u128| #[trigger] d.entities.contains_key(id) implies entity_stands(d, id) by {
        assert(c.entities.contains_key(id));
        assert(entity_stands(c, id));
        if let Some(parent) = c.entities[id].parent {
            assert(g[id][0] == parent.0);
            assert(depends(g, id, parent.0));
            lemma_first_is_closed(c.entities, g, order.entities, n.entities, id, parent.0);
        }
        let p = choose|p: Seq<u128>| #[trigger]
            is_walk(g, p) && p.len() > 0 && p[0] == id && p.no_duplicates() && next_of(g, p.last())
                is None;
        lemma_walk_stays(c, order, n, p, p.len() - 1);
        assert forall|i: int, j: int|
            #![trigger p[i], p[j]]
            0 <= i && j == i + 1 && j < p.len() implies next_of(h, p[i]) == Some(p[j]) by {
            lemma_walk_stays(c, order, n, p, i);
            assert(next_of(g, p[i]) == Some(p[j]));
            assert(h[p[i]] == g[p[i]]);
        }
        assert(is_walk(h, p));
        assert(h[p.last()] == g[p.last()]);
        assert(next_of(h, p.last()) is None);
    }
}

/// A walk from one of the first entities stays among them.
proof fn lemma_walk_stays(
    c: CatalogModel,
    order: SnapshotOrder,
    n: Progress,
    p: Seq<u128>,
    i: int,
)
    requires
        entities_stand(c),
        orders(order, c),
        in_turn(order, n),
        is_walk(entity_links(c.entities), p),
        0 <= i < p.len(),
        applied_part(c, order, n).entities.contains_key(p[0]),
    ensures
        applied_part(c, order, n).entities.contains_key(p[i]),
    decreases i,
{
    if i > 0 {
        let g = entity_links(c.entities);
        assert(g.dom() =~= c.entities.dom());
        lemma_walk_stays(c, order, n, p, i - 1);
        let a = p[i - 1];
        let b = p[i];
        assert(next_of(g, a) == Some(b));
        assert(c.entities.contains_key(a));
        assert(entity_stands(c, a));
        assert(g[a][0] == b);
        assert(depends(g, a, b));
        lemma_first_is_closed(c.entities, g, order.entities, n.entities, a, b);
    }
}

/// The first runs of a snapshot stand.
proof fn lemma_first_runs_stand(c: CatalogModel, order: SnapshotOrder, n: Progress)
    requires
        runs_stand(c),
        acyclic(run_links(c.runs)),
        orders(order, c),
        in_turn(order, n),
    ensures
        runs_stand(applied_part(c, order, n)),
        acyclic(run_links(applied_part(c, order, n).runs)),
{
    let d = applied_part(c, order, n);
    let g = run_links(c.runs);
    let h = run_links(d.runs);
    assert(g.dom() =~= c.runs.dom());
    assert forall|id: u128| #[trigger] d.runs.contains_key(id) implies run_stands(d, id) by {
        assert(c.runs.contains_key(id));
        assert(run_stands(c, id));
        let needs = run_needs(c.runs[id]);
        assert(g[id] == needs);
        if let Some(input) = c.runs[id].input_snapshot {
            assert(needs[0] == input.0);
            assert(depends(g, id, input.0));
            lemma_first_is_closed(c.runs, g, order.runs, n.runs, id, input.0);
        }
        if let Some(parent) = c.runs[id].parent_run {
            assert(needs[needs.len() - 1] == parent.0);
            assert(depends(g, id, parent.0));
            lemma_first_is_closed(c.runs, g, order.runs, n.runs, id, parent.0);
        }
    }
    let rank = choose|rank: Map<u128, int>| ranked(g, rank);
    assert forall|a: u128, b: u128| #[trigger] depends(h, a, b) implies rank[b] < rank[a] by {
        assert(h[a] == g[a]);
        assert(depends(g, a, b));
    }
    assert(ranked(h, rank));
}

/// The first plans of a snapshot stand.
proof fn lemma_first_plans_stand(c: CatalogModel, order: SnapshotOrder, n: Progress)
    requires
        plans_stand(c),
        acyclic(plan_links(c.plans)),
        orders(order, c),
        in_turn(order, n),
    ensures
        plans_stand(applied_part(c, order, n)),
        acyclic(plan_links(applied_part(c, order, n).plans)),
{
    let d = applied_part(c, order, n);
    let g = plan_links(c.plans);
    let h = plan_links(d.plans);
    assert(g.dom() =~= c.plans.dom());
    lemma_lists_all(c, order);
    lemma_all_of(c.plans, order.plans);
    assert forall|id: u128| #[trigger] d.plans.contains_key(id) implies plan_reference_fault(d, id)
        is None by {
        assert(c.plans.contains_key(id));
        assert(plan_reference_fault(c, id) is None);
        assert(n.plans > 0) by {
            assert(order.plans.take(n.plans).contains(id));
        }
        lemma_all_of(c.runs, order.runs);
        assert(d.runs == c.runs);
        if let Some(previous) = c.plans[id].supersedes {
            assert(g[id][0] == previous);
            assert(depends(g, id, previous));
            lemma_first_is_closed(c.plans, g, order.plans, n.plans, id, previous);
        }
    }
    let rank = choose|rank: Map<u128, int>| ranked(g, rank);
    assert forall|a: u128, b: u128| #[trigger] depends(h, a, b) implies rank[b] < rank[a] by {
        assert(h[a] == g[a]);
        assert(depends(g, a, b));
    }
    assert(ranked(h, rank));
}

/// The first relations and series of a snapshot stand.
proof fn lemma_first_owners_stand(c: CatalogModel, order: SnapshotOrder, n: Progress)
    requires
        relations_stand(c),
        all_series_stand(c),
        orders(order, c),
        in_turn(order, n),
    ensures
        relations_stand(applied_part(c, order, n)),
        all_series_stand(applied_part(c, order, n)),
{
    let d = applied_part(c, order, n);
    lemma_lists_all(c, order);
    lemma_all_of(c.entities, order.entities);
    lemma_all_of(c.relations, order.relations);
    assert forall|id: u128| #[trigger] d.relations.contains_key(id) implies relation_stands(
        d,
        id,
    ) by {
        assert(c.relations.contains_key(id));
        assert(relation_stands(c, id));
        assert(n.relations > 0) by {
            assert(order.relations.take(n.relations).contains(id));
        }
        assert(d.entities == c.entities);
    }
    assert forall|id: u64| #[trigger] d.series.contains_key(id) implies series_stands(d, id) by {
        assert(c.series.contains_key(id));
        assert(series_stands(c, id));
        assert(n.series > 0) by {
            assert(order.series.take(n.series).contains(id));
        }
        assert(d.entities == c.entities);
        assert(d.relations == c.relations);
    }
}

proof fn lemma_no_points_no_fault(c: CatalogModel, records: Seq<RecordModel>)
    requires
        forall|i: int| 0 <= i < records.len() ==> !((#[trigger] records[i]) is Points),
    ensures
        groups_fault(c, records) is None,
    decreases records.len(),
{
    if records.len() > 0 {
        assert forall|i: int| 0 <= i < records.len() - 1 implies !((
        #[trigger] records.drop_last()[i]) is Points) by {
            assert(records.drop_last()[i] == records[i]);
        }
        lemma_no_points_no_fault(c, records.drop_last());
        assert(!(records[records.len() - 1] is Points));
    }
}

/// The least of two numbers.
spec fn least(a: int, b: int) -> int {
    if a < b {
        a
    } else {
        b
    }
}

/// Every beginning of a snapshot can be applied to an empty catalog, and leaves a catalog
/// in which everything that is referred to is there: parents, endpoints, owners, runs and
/// superseded plans come before their users. A snapshot holds no points.
pub proof fn snapshot_beginnings_apply(c: CatalogModel, records: Seq<RecordModel>, k: int)
    requires
        keeps_own_rules(c),
        consistent(c),
        is_snapshot(c, records),
        0 <= k <= records.len(),
    ensures
        forall|i: int| 0 <= i < records.len() ==> !((#[trigger] records[i]) is Points),
        after_records(empty_catalog(), records.take(k)) matches Ok(next) && consistent(next)
            && groups_fault(next, records.take(k)) is None,
{
    let order = choose|order: SnapshotOrder| #[trigger]
        orders(order, c) && records == written(c, order);
    let e = order.entities.len() as int;
    let r = e + order.relations.len();
    let s = r + order.series.len();
    let u = s + order.runs.len();
    let n = Progress {
        entities: least(k, e),
        relations: if k <= e {
            0
        } else {
            least(k, r) - e
        },
        series: if k <= r {
            0
        } else {
            least(k, s) - r
        },
        runs: if k <= s {
            0
        } else {
            least(k, u) - s
        },
        plans: if k <= u {
            0
        } else {
            k - u
        },
    };
    assert(records.take(k) =~= written_part(c, order, n));
    lemma_lists_all(c, order);
    lemma_parts_apply(c, order, n);
    lemma_first_entities_stand(c, order, n);
    lemma_first_owners_stand(c, order, n);
    lemma_first_runs_stand(c, order, n);
    lemma_first_plans_stand(c, order, n);
    assert forall|i: int| 0 <= i < records.take(k).len() implies !((
    #[trigger] records.take(k)[i]) is Points) by {
        assert(!(records[i] is Points));
    }
    lemma_no_points_no_fault(applied_part(c, order, n), records.take(k));
}

} // verus!
