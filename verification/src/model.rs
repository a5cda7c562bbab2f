//! The energy model: entities, relations, series, runs, plans and points.
#[allow(unused_imports)]
use crate::text::{blank, is_blank};
use crate::text_map::{Duplicate, TextMap};
use vstd::prelude::*;

verus! {

/// The bits of an IEEE-754 double. Two are compared as the numbers that they stand for:
/// the two zeros are the same number, and a NaN is not the same as anything.
#[derive(Clone, Copy, Debug)]
pub struct FloatBits(pub u64);

/// Whether a double is not a number.
pub open spec fn is_nan(v: FloatBits) -> bool {
    v.0 % 0x8000_0000_0000_0000 > 0x7ff0_0000_0000_0000
}

/// Whether two doubles compare as equal.
pub open spec fn same_number(a: FloatBits, b: FloatBits) -> bool {
    &&& !is_nan(a)
    &&& !is_nan(b)
    &&& (a.0 == b.0 || (a.0 % 0x8000_0000_0000_0000 == 0 && b.0 % 0x8000_0000_0000_0000 == 0))
}

impl PartialEq for FloatBits {
    fn eq(&self, other: &FloatBits) -> (yes: bool) {
        let x: u64 = self.0 % 0x8000_0000_0000_0000;
        let y: u64 = other.0 % 0x8000_0000_0000_0000;
        x <= 0x7ff0_0000_0000_0000 && y <= 0x7ff0_0000_0000_0000 && (self.0 == other.0 || (x == 0
            && y == 0))
    }
}

impl vstd::std_specs::cmp::PartialEqSpecImpl for FloatBits {
    open spec fn obeys_eq_spec() -> bool {
        true
    }

    open spec fn eq_spec(&self, other: &FloatBits) -> bool {
        same_number(*self, *other)
    }
}

/// Whether the exponent field is not all ones: neither infinite nor NaN.
pub open spec fn finite(value: FloatBits) -> bool {
    (value.0 / 0x10_0000_0000_0000) % 0x800 != 0x7ff
}

impl DeepView for FloatBits {
    type V = FloatBits;

    open spec fn deep_view(&self) -> FloatBits {
        *self
    }
}

impl Duplicate for FloatBits {
    fn duplicate(&self) -> (copy: Self) {
        *self
    }
}

impl FloatBits {
    /// Whether the number is neither infinite nor NaN.
    pub fn is_finite(self) -> (yes: bool)
        ensures
            yes == finite(self),
    {
        (self.0 / 0x10_0000_0000_0000) % 0x800 != 0x7ff
    }
}

#[derive(Clone, Copy, Debug, PartialEq, Eq, PartialOrd, Ord, Hash, Structural)]
pub struct EntityId(pub u128);

#[derive(Clone, Copy, Debug, PartialEq, Eq, PartialOrd, Ord, Hash, Structural)]
pub struct RelationId(pub u128);

#[derive(Clone, Copy, Debug, PartialEq, Eq, PartialOrd, Ord, Hash, Structural)]
pub struct RunId(pub u128);

/// One observation, forecast value or setpoint of a series.
#[derive(Clone, Copy, Debug, PartialEq)]
pub struct Point {
    pub series_id: u64,
    pub valid_time: i64,
    pub valid_time_end: i64,
    pub knowledge_time: i64,
    pub change_time: i64,
    pub run_id: u128,
    pub value: FloatBits,
    pub quality: u32,
    pub flags: u32,
}

impl DeepView for Point {
    type V = Point;

    open spec fn deep_view(&self) -> Point {
        *self
    }
}

impl Point {
    /// An observation that is valid at one instant and was known at that instant.
    pub fn actual(series_id: u64, time: i64, value: FloatBits) -> (point: Point)
        ensures
            point == (Point {
                series_id,
                valid_time: time,
                valid_time_end: time,
                knowledge_time: time,
                change_time: time,
                run_id: 0,
                value,
                quality: 0,
                flags: 0,
            }),
    {
        Point {
            series_id,
            valid_time: time,
            valid_time_end: time,
            knowledge_time: time,
            change_time: time,
            run_id: 0,
            value,
            quality: 0,
            flags: 0,
        }
    }
}

#[derive(Debug, PartialEq)]
pub enum PropertyValue {
    Null,
    Bool(bool),
    Integer(i64),
    Float(FloatBits),
    Text(String),
}

/// What a property value holds.
pub enum PropertyModel {
    Null,
    Bool(bool),
    Integer(i64),
    Float(FloatBits),
    Text(Seq<char>),
}

impl DeepView for PropertyValue {
    type V = PropertyModel;

    open spec fn deep_view(&self) -> PropertyModel {
        match *self {
            PropertyValue::Null => PropertyModel::Null,
            PropertyValue::Bool(v) => PropertyModel::Bool(v),
            PropertyValue::Integer(v) => PropertyModel::Integer(v),
            PropertyValue::Float(v) => PropertyModel::Float(v),
            PropertyValue::Text(v) => PropertyModel::Text(v@),
        }
    }
}

impl Clone for PropertyValue {
    fn clone(&self) -> (copy: Self)
        ensures
            copy.deep_view() == self.deep_view(),
    {
        match self {
            PropertyValue::Null => PropertyValue::Null,
            PropertyValue::Bool(v) => PropertyValue::Bool(*v),
            PropertyValue::Integer(v) => PropertyValue::Integer(*v),
            PropertyValue::Float(v) => PropertyValue::Float(*v),
            PropertyValue::Text(v) => PropertyValue::Text(v.clone()),
        }
    }
}

impl Duplicate for PropertyValue {
    fn duplicate(&self) -> (copy: Self) {
        self.clone()
    }
}

pub type Properties = TextMap<PropertyValue>;

/// The entries of a property map, in ascending key order.
pub type PropertiesModel = Seq<(Seq<char>, PropertyModel)>;

/// An asset, site, portfolio, meter, market, or other stable domain object.
#[derive(Debug, PartialEq)]
pub struct Entity {
    pub id: EntityId,
    pub kind: String,
    pub name: String,
    pub parent: Option<EntityId>,
    pub valid_from: i64,
    pub valid_to: Option<i64>,
    pub properties: Properties,
}

/// What an entity holds.
pub struct EntityModel {
    pub id: EntityId,
    pub kind: Seq<char>,
    pub name: Seq<char>,
    pub parent: Option<EntityId>,
    pub valid_from: i64,
    pub valid_to: Option<i64>,
    pub properties: PropertiesModel,
}

impl DeepView for Entity {
    type V = EntityModel;

    open spec fn deep_view(&self) -> EntityModel {
        EntityModel {
            id: self.id,
            kind: self.kind@,
            name: self.name@,
            parent: self.parent,
            valid_from: self.valid_from,
            valid_to: self.valid_to,
            properties: self.properties.deep_view(),
        }
    }
}

impl Clone for Entity {
    fn clone(&self) -> (copy: Self)
        ensures
            copy.deep_view() == self.deep_view(),
    {
        Entity {
            id: self.id,
            kind: self.kind.clone(),
            name: self.name.clone(),
            parent: self.parent,
            valid_from: self.valid_from,
            valid_to: self.valid_to,
            properties: self.properties.clone(),
        }
    }
}

/// A typed topological or logical edge between entities.
#[derive(Debug, PartialEq)]
pub struct Relation {
    pub id: RelationId,
    pub kind: String,
    pub source: EntityId,
    pub target: EntityId,
    pub valid_from: i64,
    pub valid_to: Option<i64>,
    pub properties: Properties,
}

/// What a relation holds.
pub struct RelationModel {
    pub id: RelationId,
    pub kind: Seq<char>,
    pub source: EntityId,
    pub target: EntityId,
    pub valid_from: i64,
    pub valid_to: Option<i64>,
    pub properties: PropertiesModel,
}

impl DeepView for Relation {
    type V = RelationModel;

    open spec fn deep_view(&self) -> RelationModel {
        RelationModel {
            id: self.id,
            kind: self.kind@,
            source: self.source,
            target: self.target,
            valid_from: self.valid_from,
            valid_to: self.valid_to,
            properties: self.properties.deep_view(),
        }
    }
}

impl Clone for Relation {
    fn clone(&self) -> (copy: Self)
        ensures
            copy.deep_view() == self.deep_view(),
    {
        Relation {
            id: self.id,
            kind: self.kind.clone(),
            source: self.source,
            target: self.target,
            valid_from: self.valid_from,
            valid_to: self.valid_to,
            properties: self.properties.clone(),
        }
    }
}

#[derive(Clone, Copy, Debug, PartialEq, Eq, Structural)]
pub enum SeriesSemantics {
    Gauge,
    IntervalTotal,
    Counter,
    State,
    Event,
}

#[derive(Clone, Copy, Debug, PartialEq, Eq, Structural)]
pub enum CalendarUnit {
    Day,
    Month,
    Year,
}

#[derive(Debug, PartialEq, Eq)]
pub enum RollupResolution {
    FixedMicros(i64),
    Calendar { unit: CalendarUnit, iana_timezone: String },
}

/// What a rollup resolution holds.
pub enum ResolutionModel {
    FixedMicros(i64),
    Calendar { unit: CalendarUnit, iana_timezone: Seq<char> },
}

impl DeepView for RollupResolution {
    type V = ResolutionModel;

    open spec fn deep_view(&self) -> ResolutionModel {
        match *self {
            RollupResolution::FixedMicros(v) => ResolutionModel::FixedMicros(v),
            RollupResolution::Calendar { unit, iana_timezone } => ResolutionModel::Calendar {
                unit,
                iana_timezone: iana_timezone@,
            },
        }
    }
}

impl Clone for RollupResolution {
    fn clone(&self) -> (copy: Self)
        ensures
            copy.deep_view() == self.deep_view(),
    {
        match self {
            RollupResolution::FixedMicros(v) => RollupResolution::FixedMicros(*v),
            RollupResolution::Calendar { unit, iana_timezone } => RollupResolution::Calendar {
                unit: *unit,
                iana_timezone: iana_timezone.clone(),
            },
        }
    }
}

#[derive(Debug, PartialEq, Eq)]
pub struct RollupTier {
    pub resolution: RollupResolution,
    /// `None` retains this tier forever.
    pub retain_for_micros: Option<i64>,
}

/// What a rollup tier holds.
pub struct TierModel {
    pub resolution: ResolutionModel,
    pub retain_for_micros: Option<i64>,
}

impl DeepView for RollupTier {
    type V = TierModel;

    open spec fn deep_view(&self) -> TierModel {
        TierModel {
            resolution: self.resolution.deep_view(),
            retain_for_micros: self.retain_for_micros,
        }
    }
}

impl Clone for RollupTier {
    fn clone(&self) -> (copy: Self)
        ensures
            copy.deep_view() == self.deep_view(),
    {
        RollupTier {
            resolution: self.resolution.clone(),
            retain_for_micros: self.retain_for_micros,
        }
    }
}

#[derive(Debug, PartialEq, Eq)]
pub struct RollupPolicy {
    pub raw_retain_for_micros: Option<i64>,
    pub tiers: Vec<RollupTier>,
}

/// What a rollup policy holds.
pub struct PolicyModel {
    pub raw_retain_for_micros: Option<i64>,
    pub tiers: Seq<TierModel>,
}

impl DeepView for RollupPolicy {
    type V = PolicyModel;

    open spec fn deep_view(&self) -> PolicyModel {
        PolicyModel {
            raw_retain_for_micros: self.raw_retain_for_micros,
            tiers: self.tiers.deep_view(),
        }
    }
}

impl Clone for RollupPolicy {
    fn clone(&self) -> (copy: Self)
        ensures
            copy.deep_view() == self.deep_view(),
    {
        let tiers = self.tiers.clone();
        assert(tiers.deep_view() =~= self.tiers.deep_view());
        RollupPolicy { raw_retain_for_micros: self.raw_retain_for_micros, tiers }
    }
}

/// Catalog metadata that determines how values are interpreted and rolled up.
#[derive(Debug, PartialEq, Eq)]
pub struct SeriesDefinition {
    pub id: u64,
    pub owner_entity: Option<EntityId>,
    pub owner_relation: Option<RelationId>,
    pub name: String,
    pub physical_quantity: String,
    pub canonical_unit: String,
    pub semantics: SeriesSemantics,
    pub maximum_gap_micros: Option<i64>,
    pub rollup_policy: RollupPolicy,
}

/// What a series definition holds.
pub struct SeriesModel {
    pub id: u64,
    pub owner_entity: Option<EntityId>,
    pub owner_relation: Option<RelationId>,
    pub name: Seq<char>,
    pub physical_quantity: Seq<char>,
    pub canonical_unit: Seq<char>,
    pub semantics: SeriesSemantics,
    pub maximum_gap_micros: Option<i64>,
    pub rollup_policy: PolicyModel,
}

impl DeepView for SeriesDefinition {
    type V = SeriesModel;

    open spec fn deep_view(&self) -> SeriesModel {
        SeriesModel {
            id: self.id,
            owner_entity: self.owner_entity,
            owner_relation: self.owner_relation,
            name: self.name@,
            physical_quantity: self.physical_quantity@,
            canonical_unit: self.canonical_unit@,
            semantics: self.semantics,
            maximum_gap_micros: self.maximum_gap_micros,
            rollup_policy: self.rollup_policy.deep_view(),
        }
    }
}

impl Clone for SeriesDefinition {
    fn clone(&self) -> (copy: Self)
        ensures
            copy.deep_view() == self.deep_view(),
    {
        SeriesDefinition {
            id: self.id,
            owner_entity: self.owner_entity,
            owner_relation: self.owner_relation,
            name: self.name.clone(),
            physical_quantity: self.physical_quantity.clone(),
            canonical_unit: self.canonical_unit.clone(),
            semantics: self.semantics,
            maximum_gap_micros: self.maximum_gap_micros,
            rollup_policy: self.rollup_policy.clone(),
        }
    }
}

/// The rule that a rollup tier breaks, if it breaks one.
pub open spec fn tier_fault(tier: TierModel) -> Option<&'static str> {
    if tier.resolution matches ResolutionModel::FixedMicros(value) && value <= 0 {
        Some("fixed rollup resolution must be positive")
    } else if tier.resolution matches ResolutionModel::Calendar { unit, iana_timezone } && blank(
        iana_timezone,
    ) {
        Some("calendar rollups require an IANA timezone")
    } else if tier.retain_for_micros matches Some(retention) && retention <= 0 {
        Some("rollup retention must be positive or forever")
    } else {
        None
    }
}

/// The fault of the first tier that has one.
pub open spec fn tiers_fault(tiers: Seq<TierModel>) -> Option<&'static str>
    decreases tiers.len(),
{
    if tiers.len() == 0 {
        None
    } else if tiers_fault(tiers.drop_last()) is Some {
        tiers_fault(tiers.drop_last())
    } else {
        tier_fault(tiers.last())
    }
}

/// The first rule that a series definition breaks, if it breaks one.
pub open spec fn series_fault(series: SeriesModel) -> Option<&'static str> {
    if series.id == 0 {
        Some("series id zero is reserved")
    } else if blank(series.name) {
        Some("series name must not be empty")
    } else if blank(series.physical_quantity) || blank(series.canonical_unit) {
        Some("physical quantity and canonical unit are required")
    } else if series.owner_entity is Some == series.owner_relation is Some {
        Some("series must belong to exactly one entity or relation")
    } else if series.maximum_gap_micros matches Some(gap) && gap < 0 {
        Some("maximum gap must not be negative")
    } else {
        tiers_fault(series.rollup_policy.tiers)
    }
}

/// The outcome of a check: the fault, or success where there is none.
pub open spec fn checked(fault: Option<&'static str>) -> Result<(), &'static str> {
    match fault {
        Some(reason) => Err(reason),
        None => Ok(()),
    }
}

proof fn lemma_first_tier_fault(tiers: Seq<TierModel>, n: int)
    requires
        0 <= n <= tiers.len(),
        tiers_fault(tiers.take(n)) is Some,
    ensures
        tiers_fault(tiers) == tiers_fault(tiers.take(n)),
    decreases tiers.len() - n,
{
    if n < tiers.len() {
        assert(tiers.take(n + 1).drop_last() =~= tiers.take(n));
        lemma_first_tier_fault(tiers, n + 1);
    } else {
        assert(tiers.take(n) =~= tiers);
    }
}

impl RollupTier {
    /// Checks that the resolution and the retention are usable.
    pub fn validate(&self) -> (outcome: Result<(), &'static str>)
        ensures
            outcome == checked(tier_fault(self.deep_view())),
    {
        match &self.resolution {
            RollupResolution::FixedMicros(value) => {
                if *value <= 0 {
                    return Err("fixed rollup resolution must be positive");
                }
            },
            RollupResolution::Calendar { unit: _, iana_timezone } => {
                if is_blank(iana_timezone.as_str()) {
                    return Err("calendar rollups require an IANA timezone");
                }
            },
        }
        if let Some(retention) = self.retain_for_micros {
            if retention <= 0 {
                return Err("rollup retention must be positive or forever");
            }
        }
        Ok(())
    }
}

impl SeriesDefinition {
    /// Checks the definition on its own, without the rest of the catalog.
    #[verifier::loop_isolation(false)]
    pub fn validate(&self) -> (outcome: Result<(), &'static str>)
        ensures
            outcome == checked(series_fault(self.deep_view())),
    {
        if self.id == 0 {
            return Err("series id zero is reserved");
        }
        if is_blank(self.name.as_str()) {
            return Err("series name must not be empty");
        }
        if is_blank(self.physical_quantity.as_str()) || is_blank(self.canonical_unit.as_str()) {
            return Err("physical quantity and canonical unit are required");
        }
        if self.owner_entity.is_some() == self.owner_relation.is_some() {
            return Err("series must belong to exactly one entity or relation");
        }
        if let Some(gap) = self.maximum_gap_micros {
            if gap < 0 {
                return Err("maximum gap must not be negative");
            }
        }
        let tiers = &self.rollup_policy.tiers;
        let ghost model = tiers.deep_view();
        let mut i: usize = 0;
        while i < tiers.len()
            invariant
                i <= tiers@.len(),
                model == tiers.deep_view(),
                tiers_fault(model.take(i as int)) is None,
            decreases tiers@.len() - i,
        {
            let outcome = tiers[i].validate();
            proof {
                assert(model.take(i + 1).drop_last() =~= model.take(i as int));
                assert(model.take(i + 1).last() == tiers@[i as int].deep_view());
            }
            if outcome.is_err() {
                proof {
                    lemma_first_tier_fault(model, i + 1);
                }
                return outcome;
            }
            i = i + 1;
        }
        assert(model.take(model.len() as int) =~= model);
        Ok(())
    }
}

#[derive(Clone, Copy, Debug, PartialEq, Eq, Structural)]
pub enum RunKind {
    Forecast,
    Optimization,
    Import,
    Control,
    Reconciliation,
}

#[derive(Clone, Copy, Debug, PartialEq, Eq, Structural)]
pub enum RunStatus {
    Pending,
    Running,
    Succeeded,
    Failed,
    Cancelled,
}

/// Provenance shared by forecast values, plans, imports, and outcomes.
#[derive(Debug, PartialEq)]
pub struct Run {
    pub id: RunId,
    pub kind: RunKind,
    pub status: RunStatus,
    pub created_at: i64,
    pub knowledge_time: i64,
    pub workflow: String,
    pub model: String,
    pub model_version: String,
    pub parent_run: Option<RunId>,
    pub input_snapshot: Option<RunId>,
    pub attributes: Properties,
}

/// What a run holds.
pub struct RunModel {
    pub id: RunId,
    pub kind: RunKind,
    pub status: RunStatus,
    pub created_at: i64,
    pub knowledge_time: i64,
    pub workflow: Seq<char>,
    pub model: Seq<char>,
    pub model_version: Seq<char>,
    pub parent_run: Option<RunId>,
    pub input_snapshot: Option<RunId>,
    pub attributes: PropertiesModel,
}

impl DeepView for Run {
    type V = RunModel;

    open spec fn deep_view(&self) -> RunModel {
        RunModel {
            id: self.id,
            kind: self.kind,
            status: self.status,
            created_at: self.created_at,
            knowledge_time: self.knowledge_time,
            workflow: self.workflow@,
            model: self.model@,
            model_version: self.model_version@,
            parent_run: self.parent_run,
            input_snapshot: self.input_snapshot,
            attributes: self.attributes.deep_view(),
        }
    }
}

impl Clone for Run {
    fn clone(&self) -> (copy: Self)
        ensures
            copy.deep_view() == self.deep_view(),
    {
        Run {
            id: self.id,
            kind: self.kind,
            status: self.status,
            created_at: self.created_at,
            knowledge_time: self.knowledge_time,
            workflow: self.workflow.clone(),
            model: self.model.clone(),
            model_version: self.model_version.clone(),
            parent_run: self.parent_run,
            input_snapshot: self.input_snapshot,
            attributes: self.attributes.clone(),
        }
    }
}

#[derive(Clone, Copy, Debug, PartialEq, Eq, Structural)]
pub enum PlanStatus {
    Candidate,
    Approved,
    Deployed,
    Superseded,
    Cancelled,
}

/// Optimization-plan metadata. Schedules and setpoints are interval points
/// whose `run_id` refers to this plan's run.
#[derive(Debug, PartialEq)]
pub struct Plan {
    pub id: u128,
    pub run_id: RunId,
    pub status: PlanStatus,
    pub horizon_start: i64,
    pub horizon_end: i64,
    pub resolution_micros: i64,
    pub scenario: String,
    pub objective_terms: TextMap<FloatBits>,
    pub objective_value: Option<FloatBits>,
    pub supersedes: Option<u128>,
    pub attributes: Properties,
}

/// What a plan holds.
pub struct PlanModel {
    pub id: u128,
    pub run_id: RunId,
    pub status: PlanStatus,
    pub horizon_start: i64,
    pub horizon_end: i64,
    pub resolution_micros: i64,
    pub scenario: Seq<char>,
    pub objective_terms: Seq<(Seq<char>, FloatBits)>,
    pub objective_value: Option<FloatBits>,
    pub supersedes: Option<u128>,
    pub attributes: PropertiesModel,
}

impl DeepView for Plan {
    type V = PlanModel;

    open spec fn deep_view(&self) -> PlanModel {
        PlanModel {
            id: self.id,
            run_id: self.run_id,
            status: self.status,
            horizon_start: self.horizon_start,
            horizon_end: self.horizon_end,
            resolution_micros: self.resolution_micros,
            scenario: self.scenario@,
            objective_terms: self.objective_terms.deep_view(),
            objective_value: self.objective_value,
            supersedes: self.supersedes,
            attributes: self.attributes.deep_view(),
        }
    }
}

impl Clone for Plan {
    fn clone(&self) -> (copy: Self)
        ensures
            copy.deep_view() == self.deep_view(),
    {
        Plan {
            id: self.id,
            run_id: self.run_id,
            status: self.status,
            horizon_start: self.horizon_start,
            horizon_end: self.horizon_end,
            resolution_micros: self.resolution_micros,
            scenario: self.scenario.clone(),
            objective_terms: self.objective_terms.clone(),
            objective_value: self.objective_value,
            supersedes: self.supersedes,
            attributes: self.attributes.clone(),
        }
    }
}

/// The first rule that a plan breaks, if it breaks one.
pub open spec fn plan_fault(plan: PlanModel) -> Option<&'static str> {
    if plan.id == 0 || plan.run_id.0 == 0 {
        Some("plan and run ids must be non-zero")
    } else if plan.horizon_end <= plan.horizon_start {
        Some("plan horizon must have positive duration")
    } else if plan.resolution_micros <= 0 {
        Some("plan resolution must be positive")
    } else if blank(plan.scenario) {
        Some("plan scenario must not be empty")
    } else {
        None
    }
}

impl Plan {
    /// Checks the plan on its own, without the rest of the catalog.
    pub fn validate(&self) -> (outcome: Result<(), &'static str>)
        ensures
            outcome == checked(plan_fault(self.deep_view())),
    {
        if self.id == 0 || self.run_id.0 == 0 {
            return Err("plan and run ids must be non-zero");
        }
        if self.horizon_end <= self.horizon_start {
            return Err("plan horizon must have positive duration");
        }
        if self.resolution_micros <= 0 {
            return Err("plan resolution must be positive");
        }
        if is_blank(self.scenario.as_str()) {
            return Err("plan scenario must not be empty");
        }
        Ok(())
    }
}

} // verus!
