//! Transactions: the records that are committed together.
use crate::model::{Entity, Plan, Point, Relation, Run, SeriesDefinition};
#[allow(unused_imports)]
use crate::model::{EntityModel, PlanModel, RelationModel, RunModel, SeriesModel};
use crate::shadow_protocol::CommitBatchRequest;
use crate::storage::IngressIdentity;
#[allow(unused_imports)]
use crate::shadow_protocol::BatchModel;
use vstd::prelude::*;

verus! {

/// One change of the catalog, or a group of points.
#[derive(Debug, PartialEq)]
pub enum Record {
    Entity(Entity),
    Relation(Relation),
    Series(SeriesDefinition),
    Run(Run),
    Plan(Plan),
    Points(Vec<Point>),
}

/// What a record holds.
pub enum RecordModel {
    Entity(EntityModel),
    Relation(RelationModel),
    Series(SeriesModel),
    Run(RunModel),
    Plan(PlanModel),
    Points(Seq<Point>),
}

impl DeepView for Record {
    type V = RecordModel;

    open spec fn deep_view(&self) -> RecordModel {
        match *self {
            Record::Entity(entity) => RecordModel::Entity(entity.deep_view()),
            Record::Relation(relation) => RecordModel::Relation(relation.deep_view()),
            Record::Series(series) => RecordModel::Series(series.deep_view()),
            Record::Run(run) => RecordModel::Run(run.deep_view()),
            Record::Plan(plan) => RecordModel::Plan(plan.deep_view()),
            Record::Points(points) => RecordModel::Points(points@),
        }
    }
}

/// Records that are applied together or not at all.
#[derive(Debug, PartialEq)]
pub struct Transaction {
    pub records: Vec<Record>,
    /// Who sent the records, where they came through ordered ingress.
    pub ingress: Option<IngressIdentity>,
}

impl DeepView for Transaction {
    type V = Seq<RecordModel>;

    open spec fn deep_view(&self) -> Seq<RecordModel> {
        self.records.deep_view()
    }
}

/// The records of several groups, one behind the other.
pub open spec fn entity_records(entities: Seq<EntityModel>) -> Seq<RecordModel> {
    Seq::new(entities.len(), |i: int| RecordModel::Entity(entities[i]))
}

pub open spec fn relation_records(relations: Seq<RelationModel>) -> Seq<RecordModel> {
    Seq::new(relations.len(), |i: int| RecordModel::Relation(relations[i]))
}

pub open spec fn series_records(series: Seq<SeriesModel>) -> Seq<RecordModel> {
    Seq::new(series.len(), |i: int| RecordModel::Series(series[i]))
}

pub open spec fn run_records(runs: Seq<RunModel>) -> Seq<RecordModel> {
    Seq::new(runs.len(), |i: int| RecordModel::Run(runs[i]))
}

pub open spec fn plan_records(plans: Seq<PlanModel>) -> Seq<RecordModel> {
    Seq::new(plans.len(), |i: int| RecordModel::Plan(plans[i]))
}

pub open spec fn point_records(points: Seq<Point>) -> Seq<RecordModel> {
    if points.len() == 0 {
        Seq::empty()
    } else {
        seq![RecordModel::Points(points)]
    }
}

/// The records that a batch stands for: entities, relations, series, runs, plans
/// and, where there are any, its points in one group.
pub open spec fn batch_records(batch: BatchModel) -> Seq<RecordModel> {
    entity_records(batch.entities) + relation_records(batch.relations) + series_records(
        batch.series,
    ) + run_records(batch.runs) + plan_records(batch.plans) + point_records(batch.points)
}

impl Transaction {
    /// A transaction without records.
    pub fn new() -> (transaction: Self)
        ensures
            transaction.deep_view() == Seq::<RecordModel>::empty(),
            transaction.ingress is None,
    {
        let transaction = Transaction { records: Vec::new(), ingress: None };
        assert(transaction.deep_view() =~= Seq::<RecordModel>::empty());
        transaction
    }

    /// Whether there is no record.
    pub fn is_empty(&self) -> (yes: bool)
        ensures
            yes == (self.deep_view().len() == 0),
    {
        self.records.len() == 0
    }

    /// Puts a record behind the others.
    pub fn push(&mut self, record: Record)
        ensures
            final(self).deep_view() == old(self).deep_view().push(record.deep_view()),
            final(self).ingress == old(self).ingress,
    {
        let ghost before = self.deep_view();
        let ghost added = record.deep_view();
        self.records.push(record);
        assert(self.deep_view() =~= before.push(added));
    }

    pub fn upsert_entity(&mut self, entity: Entity)
        ensures
            final(self).deep_view() == old(self).deep_view().push(
                RecordModel::Entity(entity.deep_view()),
            ),
            final(self).ingress == old(self).ingress,
    {
        self.push(Record::Entity(entity));
    }

    pub fn upsert_relation(&mut self, relation: Relation)
        ensures
            final(self).deep_view() == old(self).deep_view().push(
                RecordModel::Relation(relation.deep_view()),
            ),
            final(self).ingress == old(self).ingress,
    {
        self.push(Record::Relation(relation));
    }

    pub fn define_series(&mut self, series: SeriesDefinition)
        ensures
            final(self).deep_view() == old(self).deep_view().push(
                RecordModel::Series(series.deep_view()),
            ),
            final(self).ingress == old(self).ingress,
    {
        self.push(Record::Series(series));
    }

    pub fn upsert_run(&mut self, run: Run)
        ensures
            final(self).deep_view() == old(self).deep_view().push(
                RecordModel::Run(run.deep_view()),
            ),
            final(self).ingress == old(self).ingress,
    {
        self.push(Record::Run(run));
    }

    pub fn upsert_plan(&mut self, plan: Plan)
        ensures
            final(self).deep_view() == old(self).deep_view().push(
                RecordModel::Plan(plan.deep_view()),
            ),
            final(self).ingress == old(self).ingress,
    {
        self.push(Record::Plan(plan));
    }

    /// Adds points as one group.
    pub fn append_points(&mut self, points: Vec<Point>)
        ensures
            final(self).deep_view() == old(self).deep_view().push(RecordModel::Points(points@)),
            final(self).ingress == old(self).ingress,
    {
        self.push(Record::Points(points));
    }

    /// Says who sent the records.
    pub fn with_ingress_identity(&mut self, identity: IngressIdentity)
        ensures
            final(self).deep_view() == old(self).deep_view(),
            final(self).ingress == Some(identity),
    {
        self.ingress = Some(identity);
    }

    pub fn ingress_identity(&self) -> (identity: Option<IngressIdentity>)
        ensures
            identity == self.ingress,
    {
        self.ingress
    }

    pub fn record_count(&self) -> (count: usize)
        ensures
            count == self.deep_view().len(),
    {
        self.records.len()
    }

    /// How many points the records hold.
    pub fn point_count(&self) -> (count: usize)
        ensures
            count == counted_points(self.deep_view()),
    {
        let ghost records = self.deep_view();
        let mut count: usize = 0;
        let mut i: usize = 0;
        while i < self.records.len()
            invariant
                i <= self.records@.len(),
                records == self.deep_view(),
                count == counted_points(records.take(i as int)),
            decreases self.records@.len() - i,
        {
            proof {
                assert(records.take(i + 1).drop_last() =~= records.take(i as int));
                assert(records[i as int] == self.records@[i as int].deep_view());
            }
            match &self.records[i] {
                Record::Points(points) => {
                    count = count.saturating_add(points.len());
                },
                _ => {},
            }
            i = i + 1;
        }
        assert(records.take(records.len() as int) =~= records);
        count
    }
}

/// How many points some records hold.
pub open spec fn points_in(records: Seq<RecordModel>) -> nat
    decreases records.len(),
{
    if records.len() == 0 {
        0
    } else {
        points_in(records.drop_last()) + match records.last() {
            RecordModel::Points(points) => points.len(),
            _ => 0,
        }
    }
}

/// The number of points as a machine counts them: it stops at the largest count.
pub open spec fn counted_points(records: Seq<RecordModel>) -> usize {
    if points_in(records) > usize::MAX {
        usize::MAX
    } else {
        points_in(records) as usize
    }
}

/// Builds the one canonical storage transaction used by both the sidecar and
/// read-only reconciliation. Keeping this mapping in one place prevents the
/// verifier from blessing bytes that the server would store differently.
#[verifier::loop_isolation(false)]
pub fn transaction_from_batch(batch: CommitBatchRequest) -> (transaction: Transaction)
    ensures
        transaction.deep_view() == batch_records(batch.deep_view()),
        transaction.ingress is None,
{
    let ghost b = batch.deep_view();
    let mut transaction = Transaction::new();
    let entities = batch.entities;
    let relations = batch.relations;
    let series = batch.series;
    let runs = batch.runs;
    let plans = batch.plans;
    let points = batch.points;
    let ghost p = points@;
    assert(b.points =~= points@);

    let mut i: usize = 0;
    while i < entities.len()
        invariant
            i <= entities@.len(),
            transaction.deep_view() == entity_records(b.entities).take(i as int),
            transaction.ingress is None,
        decreases entities@.len() - i,
    {
        let ghost before = transaction.deep_view();
        transaction.upsert_entity(entities[i].clone());
        assert(b.entities[i as int] == entities@[i as int].deep_view());
        i = i + 1;
        assert(transaction.deep_view() =~= entity_records(b.entities).take(i as int));
    }
    let ghost done = entity_records(b.entities);
    assert(transaction.deep_view() =~= done + relation_records(b.relations).take(0));

    i = 0;
    while i < relations.len()
        invariant
            i <= relations@.len(),
            transaction.deep_view() == done + relation_records(b.relations).take(i as int),
            transaction.ingress is None,
        decreases relations@.len() - i,
    {
        transaction.upsert_relation(relations[i].clone());
        assert(b.relations[i as int] == relations@[i as int].deep_view());
        i = i + 1;
        assert(transaction.deep_view() =~= done + relation_records(b.relations).take(i as int));
    }
    let ghost done = done + relation_records(b.relations);
    assert(transaction.deep_view() =~= done + series_records(b.series).take(0));

    i = 0;
    while i < series.len()
        invariant
            i <= series@.len(),
            transaction.deep_view() == done + series_records(b.series).take(i as int),
            transaction.ingress is None,
        decreases series@.len() - i,
    {
        transaction.define_series(series[i].clone());
        assert(b.series[i as int] == series@[i as int].deep_view());
        i = i + 1;
        assert(transaction.deep_view() =~= done + series_records(b.series).take(i as int));
    }
    let ghost done = done + series_records(b.series);
    assert(transaction.deep_view() =~= done + run_records(b.runs).take(0));

    i = 0;
    while i < runs.len()
        invariant
            i <= runs@.len(),
            transaction.deep_view() == done + run_records(b.runs).take(i as int),
            transaction.ingress is None,
        decreases runs@.len() - i,
    {
        transaction.upsert_run(runs[i].clone());
        assert(b.runs[i as int] == runs@[i as int].deep_view());
        i = i + 1;
        assert(transaction.deep_view() =~= done + run_records(b.runs).take(i as int));
    }
    let ghost done = done + run_records(b.runs);
    assert(transaction.deep_view() =~= done + plan_records(b.plans).take(0));

    i = 0;
    while i < plans.len()
        invariant
            i <= plans@.len(),
            transaction.deep_view() == done + plan_records(b.plans).take(i as int),
            transaction.ingress is None,
        decreases plans@.len() - i,
    {
        transaction.upsert_plan(plans[i].clone());
        assert(b.plans[i as int] == plans@[i as int].deep_view());
        i = i + 1;
        assert(transaction.deep_view() =~= done + plan_records(b.plans).take(i as int));
    }
    let ghost done = done + plan_records(b.plans);
    assert(transaction.deep_view() =~= done);

    if points.len() > 0 {
        transaction.append_points(points);
    }
    assert(transaction.deep_view() =~= done + point_records(p));
    transaction
}

} // verus!
