//! What the catalog accepts and what it refuses, rule by rule.
#[allow(unused_imports)]
use crate::catalog::{
    after_records, applies, consistent, entity_links, entity_stands, first_fault, groups_fault,
    interval_fault, intervals_fault, keeps_own_rules, plan_links, plan_reference_fault,
    point_reference_fault, points_fault, record_fault, run_fault, run_links, run_stands,
    sound_properties, sound_property, with_record, Catalog, CatalogModel,
};
#[allow(unused_imports)]
use crate::dependencies::{depends, is_walk, next_of, ranked};
#[allow(unused_imports)]
use crate::error::Error;
#[allow(unused_imports)]
use crate::model::{
    finite, tier_fault, tiers_fault, EntityModel, PlanModel, PlanStatus, Point, PropertiesModel,
    PropertyModel, RelationModel, ResolutionModel, RunKind, RunModel, RunStatus, SeriesModel,
    TierModel,
};
#[allow(unused_imports)]
use crate::sameness::{same_properties, same_property};
#[allow(unused_imports)]
use crate::text::blank;
#[allow(unused_imports)]
use crate::transaction::RecordModel;
use vstd::prelude::*;

verus! {

/// One record behind no others.
proof fn lemma_one_record(c: CatalogModel, record: RecordModel)
    ensures
        after_records(c, seq![record]) == match record_fault(c, record) {
            Some(text) => Err::<CatalogModel, Seq<char>>(text),
            None => Ok::<CatalogModel, Seq<char>>(with_record(c, record)),
        },
        !(record is Points) ==> groups_fault(c, seq![record]) is None,
        !(record is Points) ==> groups_fault(with_record(c, record), seq![record]) is None,
{
    let none = Seq::<RecordModel>::empty();
    assert(seq![record].drop_last() =~= none);
    assert(seq![record].last() == record);
    assert(after_records(c, none) == Ok::<CatalogModel, Seq<char>>(c));
    assert(groups_fault(c, none) is None);
    assert(groups_fault(with_record(c, record), none) is None);
}

/// A plan whose status alone changes leaves what the catalog refers to as it was.
proof fn lemma_status_alone(c: CatalogModel, id: u128, next: PlanStatus)
    requires
        consistent(c),
        c.plans.contains_key(id),
    ensures
        consistent(
            CatalogModel {
                plans: c.plans.insert(id, PlanModel { status: next, ..c.plans[id] }),
                ..c
            },
        ),
{
    let changed = PlanModel { status: next, ..c.plans[id] };
    let d = CatalogModel { plans: c.plans.insert(id, changed), ..c };
    assert(plan_links(d.plans) =~= plan_links(c.plans));
    assert forall|k: u128| #[trigger] d.entities.contains_key(k) implies entity_stands(d, k) by {
        assert(entity_stands(c, k));
    }
    assert forall|k: u128| #[trigger] d.plans.contains_key(k) implies plan_reference_fault(d, k)
        is None by {
        assert(c.plans.contains_key(k));
        assert(plan_reference_fault(c, k) is None);
    }
}

/// How a plan moves on. An update that changes nothing but the status of a plan is taken
/// exactly where the plan keeps its status, or goes from candidate to approved, from
/// approved to deployed, from one of these two to cancelled, or from any of the three to
/// superseded. So a candidate can be approved and then deployed, and a plan that was
/// cancelled or superseded stays so. The catalog then holds the plan with its new status,
/// and is otherwise as it was.
pub proof fn plans_move_on_as_listed(
    c: CatalogModel,
    id: u128,
    next: PlanStatus,
    outcome: Result<Catalog, Error>,
)
    requires
        consistent(c),
        keeps_own_rules(c),
        c.plans.contains_key(id),
        applies(
            c,
            seq![RecordModel::Plan(PlanModel { status: next, ..c.plans[id] })],
            outcome,
        ),
    ensures
        outcome is Ok <==> {
            ||| next == c.plans[id].status
            ||| c.plans[id].status == PlanStatus::Candidate && next == PlanStatus::Approved
            ||| c.plans[id].status == PlanStatus::Candidate && next == PlanStatus::Cancelled
            ||| c.plans[id].status == PlanStatus::Candidate && next == PlanStatus::Superseded
            ||| c.plans[id].status == PlanStatus::Approved && next == PlanStatus::Deployed
            ||| c.plans[id].status == PlanStatus::Approved && next == PlanStatus::Cancelled
            ||| c.plans[id].status == PlanStatus::Approved && next == PlanStatus::Superseded
            ||| c.plans[id].status == PlanStatus::Deployed && next == PlanStatus::Superseded
        },
        outcome matches Ok(catalog) ==> catalog.model() == (CatalogModel {
            plans: c.plans.insert(id, PlanModel { status: next, ..c.plans[id] }),
            ..c
        }),
{
    let changed = PlanModel { status: next, ..c.plans[id] };
    lemma_one_record(c, RecordModel::Plan(changed));
    lemma_status_alone(c, id, next);
}

/// The schedule of a plan cannot be moved: an update that gives it another run, horizon
/// or resolution is refused, whatever else it says.
pub proof fn schedules_are_immutable(
    c: CatalogModel,
    p: PlanModel,
    outcome: Result<Catalog, Error>,
)
    requires
        c.plans.contains_key(p.id),
        applies(c, seq![RecordModel::Plan(p)], outcome),
        p.run_id != c.plans[p.id].run_id || p.horizon_start != c.plans[p.id].horizon_start
            || p.horizon_end != c.plans[p.id].horizon_end || p.resolution_micros
            != c.plans[p.id].resolution_micros,
    ensures
        outcome is Err,
{
    lemma_one_record(c, RecordModel::Plan(p));
}

/// How a run moves on. An update that changes nothing but the status of a run is taken
/// exactly where the run is still pending or running, or keeps its status: what has
/// succeeded, failed or been cancelled stays so.
pub proof fn runs_move_on_until_they_end(
    c: CatalogModel,
    id: u128,
    next: RunStatus,
    outcome: Result<Catalog, Error>,
)
    requires
        consistent(c),
        keeps_own_rules(c),
        c.runs.contains_key(id),
        applies(
            c,
            seq![RecordModel::Run(RunModel { status: next, ..c.runs[id] })],
            outcome,
        ),
    ensures
        outcome is Ok <==> c.runs[id].status == RunStatus::Pending || c.runs[id].status
            == RunStatus::Running || next == c.runs[id].status,
        outcome matches Ok(catalog) ==> catalog.model() == (CatalogModel {
            runs: c.runs.insert(id, RunModel { status: next, ..c.runs[id] }),
            ..c
        }),
{
    let changed = RunModel { status: next, ..c.runs[id] };
    lemma_one_record(c, RecordModel::Run(changed));
    let d = CatalogModel { runs: c.runs.insert(id, changed), ..c };
    assert(run_links(d.runs) =~= run_links(c.runs));
    assert(consistent(d)) by {
        assert forall|k: u128| #[trigger] d.entities.contains_key(k) implies entity_stands(d, k) by {
            assert(entity_stands(c, k));
        }
        assert forall|k: u128| #[trigger] d.runs.contains_key(k) implies run_stands(d, k) by {
            assert(c.runs.contains_key(k));
            assert(run_stands(c, k));
        }
        assert forall|k: u128| #[trigger] d.plans.contains_key(k) implies plan_reference_fault(d, k)
            is None by {
            assert(plan_reference_fault(c, k) is None);
        }
    }
    assert(run_fault(c.runs[id]) is None);
    let list = c.runs[id].attributes;
    assert(same_properties(list, list)) by {
        assert forall|i: int| #![trigger list[i]]
            0 <= i < list.len() implies list[i].0 == list[i].0 && same_property(
            list[i].1,
            list[i].1,
        ) by {
            assert(sound_property(list[i]));
            if let PropertyModel::Float(v) = list[i].1 {
                lemma_finite_is_number(v.0);
            }
        }
    }
}

/// A finite number is a number.
proof fn lemma_finite_is_number(bits: u64)
    requires
        (bits / 0x10_0000_0000_0000) % 0x800 != 0x7ff,
    ensures
        bits % 0x8000_0000_0000_0000 <= 0x7ff0_0000_0000_0000,
{
    assert((bits / 0x10_0000_0000_0000) % 0x800 != 0x7ff ==> bits % 0x8000_0000_0000_0000
        <= 0x7ff0_0000_0000_0000) by (bit_vector);
}

/// A run keeps its kind and the time at which it was made: an update that changes one of
/// them is refused. And what a run that ended has recorded cannot be changed.
pub proof fn run_identities_are_immutable(
    c: CatalogModel,
    r: RunModel,
    outcome: Result<Catalog, Error>,
)
    requires
        c.runs.contains_key(r.id.0),
        applies(c, seq![RecordModel::Run(r)], outcome),
    ensures
        r.kind != c.runs[r.id.0].kind ==> outcome is Err,
        r.created_at != c.runs[r.id.0].created_at ==> outcome is Err,
        c.runs[r.id.0].status != RunStatus::Pending && c.runs[r.id.0].status != RunStatus::Running
            && (r.knowledge_time != c.runs[r.id.0].knowledge_time || r.workflow
            != c.runs[r.id.0].workflow || r.model != c.runs[r.id.0].model || r.model_version
            != c.runs[r.id.0].model_version || r.parent_run != c.runs[r.id.0].parent_run
            || r.input_snapshot != c.runs[r.id.0].input_snapshot || r.attributes.len()
            != c.runs[r.id.0].attributes.len()) ==> outcome is Err,
{
    lemma_one_record(c, RecordModel::Run(r));
}

/// Whether properties have names, and numbers that are finite.
pub open spec fn usable(properties: PropertiesModel) -> bool {
    forall|i: int|
        #![trigger properties[i]]
        0 <= i < properties.len() ==> !blank(properties[i].0) && (properties[i].1
            matches PropertyModel::Float(number) ==> finite(number))
}

/// What an entity needs on its own, and all that it needs.
pub proof fn entities_need(c: CatalogModel, e: EntityModel)
    ensures
        record_fault(c, RecordModel::Entity(e)) is None <==> {
            &&& e.id.0 != 0
            &&& !blank(e.kind)
            &&& !blank(e.name)
            &&& e.parent != Some(e.id)
            &&& e.valid_to is None || e.valid_to->Some_0 > e.valid_from
            &&& usable(e.properties)
        },
{
    lemma_usable(e.properties);
}

proof fn lemma_usable(properties: PropertiesModel)
    ensures
        sound_properties(properties) == usable(properties),
{
    if usable(properties) {
        assert forall|i: int| 0 <= i < properties.len() implies sound_property(
            #[trigger] properties[i],
        ) by {}
    }
    if sound_properties(properties) {
        assert forall|i: int|
            #![trigger properties[i]]
            0 <= i < properties.len() implies !blank(properties[i].0) && (properties[i].1
            matches PropertyModel::Float(number) ==> finite(number)) by {
            assert(sound_property(properties[i]));
        }
    }
}

/// What a relation needs on its own, and all that it needs.
pub proof fn relations_need(c: CatalogModel, r: RelationModel)
    ensures
        record_fault(c, RecordModel::Relation(r)) is None <==> {
            &&& r.id.0 != 0
            &&& !blank(r.kind)
            &&& r.valid_to is None || r.valid_to->Some_0 > r.valid_from
            &&& usable(r.properties)
        },
{
    lemma_usable(r.properties);
}

/// Tiers are right where each of them is.
proof fn lemma_tiers(tiers: Seq<TierModel>)
    ensures
        tiers_fault(tiers) is None <==> forall|i: int|
            0 <= i < tiers.len() ==> tier_fault(#[trigger] tiers[i]) is None,
    decreases tiers.len(),
{
    if tiers.len() > 0 {
        let front = tiers.drop_last();
        lemma_tiers(front);
        assert(tiers[tiers.len() - 1] == tiers.last());
        assert forall|i: int| 0 <= i < front.len() implies front[i] == #[trigger] tiers[i] by {}
        if tiers_fault(tiers) is None {
            assert forall|i: int| 0 <= i < tiers.len() implies tier_fault(#[trigger] tiers[i])
                is None by {
                if i < front.len() {
                    assert(tier_fault(front[i]) is None);
                }
            }
        }
        if forall|i: int| 0 <= i < tiers.len() ==> tier_fault(#[trigger] tiers[i]) is None {
            assert forall|i: int| 0 <= i < front.len() implies tier_fault(#[trigger] front[i])
                is None by {
                assert(tier_fault(tiers[i]) is None);
            }
        }
    }
}

/// What a series needs on its own, and all that it needs: among other things exactly one
/// owner, and tiers of a usable resolution that are kept for some time or for good.
pub proof fn series_need(c: CatalogModel, s: SeriesModel)
    ensures
        record_fault(c, RecordModel::Series(s)) is None <==> {
            &&& s.id != 0
            &&& !blank(s.name)
            &&& !blank(s.physical_quantity)
            &&& !blank(s.canonical_unit)
            &&& s.owner_entity is Some <==> s.owner_relation is None
            &&& s.maximum_gap_micros is None || s.maximum_gap_micros->Some_0 >= 0
            &&& forall|i: int|
                #![trigger s.rollup_policy.tiers[i]]
                0 <= i < s.rollup_policy.tiers.len() ==> {
                    let tier = s.rollup_policy.tiers[i];
                    &&& tier.resolution matches ResolutionModel::FixedMicros(micros) ==> micros > 0
                    &&& tier.resolution matches ResolutionModel::Calendar { iana_timezone, .. }
                        ==> !blank(iana_timezone)
                    &&& tier.retain_for_micros is None || tier.retain_for_micros->Some_0 > 0
                }
        },
{
    let tiers = s.rollup_policy.tiers;
    lemma_tiers(tiers);
    if tiers_fault(tiers) is None {
        assert forall|i: int|
            #![trigger s.rollup_policy.tiers[i]]
            0 <= i < s.rollup_policy.tiers.len() implies {
            let tier = s.rollup_policy.tiers[i];
            &&& tier.resolution matches ResolutionModel::FixedMicros(micros) ==> micros > 0
            &&& tier.resolution matches ResolutionModel::Calendar { iana_timezone, .. } ==> !blank(
                iana_timezone,
            )
            &&& tier.retain_for_micros is None || tier.retain_for_micros->Some_0 > 0
        } by {
            assert(tier_fault(tiers[i]) is None);
        }
    } else {
        let i = choose|i: int| 0 <= i < tiers.len() && !(tier_fault(#[trigger] tiers[i]) is None);
        assert(s.rollup_policy.tiers[i] == tiers[i]);
    }
}

/// What a run that is new needs on its own, and all that it needs.
pub proof fn new_runs_need(c: CatalogModel, r: RunModel)
    requires
        !c.runs.contains_key(r.id.0),
    ensures
        record_fault(c, RecordModel::Run(r)) is None <==> {
            &&& r.id.0 != 0
            &&& !blank(r.workflow)
            &&& r.parent_run != Some(r.id)
            &&& r.input_snapshot != Some(r.id)
            &&& usable(r.attributes)
        },
{
    lemma_usable(r.attributes);
}

/// What a plan that is new needs on its own, and all that it needs.
pub proof fn new_plans_need(c: CatalogModel, p: PlanModel)
    requires
        !c.plans.contains_key(p.id),
    ensures
        record_fault(c, RecordModel::Plan(p)) is None <==> {
            &&& p.id != 0
            &&& p.run_id.0 != 0
            &&& p.horizon_start < p.horizon_end
            &&& p.resolution_micros > 0
            &&& !blank(p.scenario)
            &&& usable(p.attributes)
        },
{
    lemma_usable(p.attributes);
}

/// The first fault among points is none where no point has one.
proof fn lemma_no_first_fault(points: Seq<Point>, rule: spec_fn(Point) -> Option<Seq<char>>)
    ensures
        first_fault(points, rule) is None <==> forall|i: int|
            0 <= i < points.len() ==> rule(#[trigger] points[i]) is None,
    decreases points.len(),
{
    if points.len() > 0 {
        let front = points.drop_last();
        lemma_no_first_fault(front, rule);
        assert(points[points.len() - 1] == points.last());
        if first_fault(points, rule) is None {
            assert forall|i: int| 0 <= i < points.len() implies rule(#[trigger] points[i])
                is None by {
                if i < front.len() {
                    assert(front[i] == points[i]);
                }
            }
        }
        if forall|i: int| 0 <= i < points.len() ==> rule(#[trigger] points[i]) is None {
            assert forall|i: int| 0 <= i < front.len() implies rule(#[trigger] front[i])
                is None by {
                assert(front[i] == points[i]);
            }
        }
    }
}

/// What points need: a time that does not end before it begins, a finite value, a series
/// that is defined, and a run that is there unless they have none.
pub proof fn points_need(c: CatalogModel, points: Seq<Point>)
    ensures
        points_fault(c, points) is None <==> forall|i: int|
            #![trigger points[i]]
            0 <= i < points.len() ==> {
                &&& points[i].valid_time <= points[i].valid_time_end
                &&& finite(points[i].value)
                &&& c.series.contains_key(points[i].series_id)
                &&& points[i].run_id == 0 || c.runs.contains_key(points[i].run_id)
            },
{
    let own = |p: Point| interval_fault(p);
    let refers = |p: Point| point_reference_fault(c, p);
    lemma_no_first_fault(points, own);
    lemma_no_first_fault(points, refers);
    if points_fault(c, points) is None {
        assert forall|i: int| #![trigger points[i]] 0 <= i < points.len() implies {
            &&& points[i].valid_time <= points[i].valid_time_end
            &&& finite(points[i].value)
            &&& c.series.contains_key(points[i].series_id)
            &&& points[i].run_id == 0 || c.runs.contains_key(points[i].run_id)
        } by {
            assert(own(points[i]) is None);
            assert(refers(points[i]) is None);
        }
    } else if intervals_fault(points) is Some {
        let i = choose|i: int| 0 <= i < points.len() && !(own(#[trigger] points[i]) is None);
    } else {
        let i = choose|i: int| 0 <= i < points.len() && !(refers(#[trigger] points[i]) is None);
    }
}

/// Whether a sequence of entities leads from each to its parent.
pub open spec fn climbs(c: CatalogModel, chain: Seq<u128>) -> bool {
    forall|i: int, j: int|
        #![trigger chain[i], chain[j]]
        0 <= i && j == i + 1 && j < chain.len() ==> c.entities.contains_key(chain[i])
            && c.entities[chain[i]].parent is Some && (c.entities[chain[i]].parent->Some_0).0
            == chain[j]
}

/// A step of a chain.
proof fn lemma_climb(c: CatalogModel, chain: Seq<u128>, i: int, j: int)
    requires
        climbs(c, chain),
        0 <= i,
        j == i + 1,
        j < chain.len(),
    ensures
        c.entities.contains_key(chain[i]),
        next_of(entity_links(c.entities), chain[i]) == Some(chain[j]),
{
    let from = chain[i];
    let to = chain[j];
    assert(c.entities[from].parent is Some && (c.entities[from].parent->Some_0).0 == to);
    assert(entity_links(c.entities)[from][0] == to);
}

/// A walk that ends would go around a closed chain for good.
proof fn lemma_around(c: CatalogModel, chain: Seq<u128>, walk: Seq<u128>, m: int)
    requires
        climbs(c, chain),
        chain.len() >= 2,
        chain[0] == chain.last(),
        is_walk(entity_links(c.entities), walk),
        0 <= m < walk.len(),
        walk[0] == chain[0],
    ensures
        walk[m] == chain[m % (chain.len() - 1)],
        next_of(entity_links(c.entities), walk[m]) is Some,
    decreases m,
{
    let g = entity_links(c.entities);
    let l = chain.len() - 1;
    if m > 0 {
        lemma_around(c, chain, walk, m - 1);
        let a = (m - 1) % l;
        vstd::arithmetic::div_mod::lemma_mod_bound(m - 1, l);
        lemma_climb(c, chain, a, a + 1);
        assert(next_of(g, walk[m - 1]) == Some(walk[m]));
        vstd::arithmetic::div_mod::lemma_fundamental_div_mod(m - 1, l);
        let q = (m - 1) / l;
        if a + 1 == l {
            assert(m == (q + 1) * l + 0) by (nonlinear_arith)
                requires
                    m - 1 == l * q + a,
                    a + 1 == l,
            ;
            vstd::arithmetic::div_mod::lemma_fundamental_div_mod_converse(m, l, q + 1, 0);
        } else {
            assert(m == q * l + (a + 1)) by (nonlinear_arith)
                requires
                    m - 1 == l * q + a,
            ;
            vstd::arithmetic::div_mod::lemma_fundamental_div_mod_converse(m, l, q, a + 1);
        }
    } else {
        vstd::arithmetic::div_mod::lemma_small_mod(0, l as nat);
    }
    let b = m % l;
    vstd::arithmetic::div_mod::lemma_mod_bound(m, l);
    lemma_climb(c, chain, b, b + 1);
}

/// No entity of a catalog that was accepted is its own ancestor.
pub proof fn no_entity_is_its_own_ancestor(
    c: CatalogModel,
    records: Seq<RecordModel>,
    outcome: Result<Catalog, Error>,
    chain: Seq<u128>,
)
    requires
        applies(c, records, outcome),
        outcome is Ok,
        climbs(outcome->Ok_0.model(), chain),
        chain.len() >= 2,
    ensures
        chain[0] != chain.last(),
{
    let d = outcome->Ok_0.model();
    let g = entity_links(d.entities);
    if chain[0] == chain.last() {
        lemma_climb(d, chain, 0, 1);
        assert(entity_stands(d, chain[0]));
        let walk = choose|p: Seq<u128>| #[trigger]
            is_walk(g, p) && p.len() > 0 && p[0] == chain[0] && p.no_duplicates() && next_of(
                g,
                p.last(),
            ) is None;
        lemma_around(d, chain, walk, walk.len() - 1);
    }
}

/// Whether every entity has a parent that is there and stands lower, or none.
pub open spec fn rises_over_parents(height: Map<u128, nat>, c: CatalogModel) -> bool {
    forall|k: u128| #[trigger]
        c.entities.contains_key(k) ==> (c.entities[k].parent matches Some(parent)
            ==> c.entities.contains_key(parent.0) && height[parent.0] < height[k])
}

/// A walk over entities that stand lower and lower ends.
proof fn lemma_descent(height: Map<u128, nat>, c: CatalogModel, k: u128) -> (p: Seq<u128>)
    requires
        rises_over_parents(height, c),
        c.entities.contains_key(k),
    ensures
        is_walk(entity_links(c.entities), p),
        p.len() > 0,
        p[0] == k,
        p.no_duplicates(),
        next_of(entity_links(c.entities), p.last()) is None,
        forall|i: int| 0 <= i < p.len() ==> height[#[trigger] p[i]] <= height[k],
    decreases height[k],
{
    let g = entity_links(c.entities);
    match c.entities[k].parent {
        None => {
            assert(g[k] =~= Seq::<u128>::empty());
            seq![k]
        },
        Some(parent) => {
            let rest = lemma_descent(height, c, parent.0);
            let p = seq![k] + rest;
            assert(g[k][0] == parent.0);
            assert forall|i: int, j: int|
                #![trigger p[i], p[j]]
                0 <= i && j == i + 1 && j < p.len() implies next_of(g, p[i]) == Some(p[j]) by {
                if i > 0 {
                    assert(next_of(g, rest[i - 1]) == Some(rest[i]));
                }
            }
            assert forall|i: int| 0 <= i < p.len() implies height[#[trigger] p[i]] <= height[k] by {
                if i > 0 {
                    assert(height[rest[i - 1]] <= height[parent.0]);
                }
            }
            assert forall|i: int, j: int| 0 <= i < j < p.len() implies p[i] != p[j] by {
                assert(height[rest[j - 1]] <= height[parent.0]);
                if i > 0 {
                    assert(rest[i - 1] != rest[j - 1]);
                }
            }
            assert(p.last() == rest.last());
            p
        },
    }
}

/// A catalog that was accepted is whole. Parents, endpoints, owners, provenance, runs of
/// plans and superseded plans are all there, a plan is that of an optimization run, and no
/// run or plan comes back to itself by what it refers to.
pub proof fn accepted_catalogs_are_whole(
    c: CatalogModel,
    records: Seq<RecordModel>,
    outcome: Result<Catalog, Error>,
)
    requires
        applies(c, records, outcome),
        outcome is Ok,
    ensures
        ({
            let d = outcome->Ok_0.model();
            &&& forall|k: u128| #[trigger]
                d.entities.contains_key(k) ==> (d.entities[k].parent matches Some(parent)
                    ==> d.entities.contains_key(parent.0))
            &&& forall|k: u128| #[trigger]
                d.relations.contains_key(k) ==> d.entities.contains_key(d.relations[k].source.0)
                    && d.entities.contains_key(d.relations[k].target.0)
            &&& forall|k: u64| #[trigger]
                d.series.contains_key(k) ==> (d.series[k].owner_entity matches Some(owner)
                    ==> d.entities.contains_key(owner.0)) && (d.series[k].owner_relation
                    matches Some(owner) ==> d.relations.contains_key(owner.0))
            &&& forall|k: u128| #[trigger]
                d.runs.contains_key(k) ==> (d.runs[k].parent_run matches Some(parent)
                    ==> d.runs.contains_key(parent.0)) && (d.runs[k].input_snapshot matches Some(
                    input,
                ) ==> d.runs.contains_key(input.0))
            &&& forall|k: u128| #[trigger]
                d.plans.contains_key(k) ==> d.runs.contains_key(d.plans[k].run_id.0)
                    && d.runs[d.plans[k].run_id.0].kind == RunKind::Optimization && (
                d.plans[k].supersedes matches Some(previous) ==> d.plans.contains_key(previous))
            &&& exists|height: Map<u128, int>| #[trigger] rises_over_runs(height, d)
            &&& exists|height: Map<u128, int>| #[trigger] rises_over_plans(height, d)
        }),
{
    let d = outcome->Ok_0.model();
    assert(consistent(d));
    assert forall|k: u128| #[trigger] d.entities.contains_key(k) implies (d.entities[k].parent
        matches Some(parent) ==> d.entities.contains_key(parent.0)) by {
        assert(entity_stands(d, k));
    }
    assert forall|k: u128| #[trigger] d.plans.contains_key(k) implies d.runs.contains_key(
        d.plans[k].run_id.0,
    ) && d.runs[d.plans[k].run_id.0].kind == RunKind::Optimization && (d.plans[k].supersedes
        matches Some(previous) ==> d.plans.contains_key(previous)) by {
        assert(plan_reference_fault(d, k) is None);
    }
    let g = run_links(d.runs);
    let height = choose|rank: Map<u128, int>| ranked(g, rank);
    assert(rises_over_runs(height, d)) by {
        assert forall|k: u128| #[trigger] d.runs.contains_key(k) implies (d.runs[k].parent_run
            matches Some(parent) ==> height[parent.0] < height[k]) && (d.runs[k].input_snapshot
            matches Some(input) ==> height[input.0] < height[k]) by {
            let needs = g[k];
            if let Some(input) = d.runs[k].input_snapshot {
                assert(needs[0] == input.0);
                assert(depends(g, k, input.0));
            }
            if let Some(parent) = d.runs[k].parent_run {
                assert(needs[needs.len() - 1] == parent.0);
                assert(depends(g, k, parent.0));
            }
        }
    }
    let g = plan_links(d.plans);
    let height = choose|rank: Map<u128, int>| ranked(g, rank);
    assert(rises_over_plans(height, d)) by {
        assert forall|k: u128| #[trigger] d.plans.contains_key(k) implies (d.plans[k].supersedes
            matches Some(previous) ==> height[previous] < height[k]) by {
            if let Some(previous) = d.plans[k].supersedes {
                assert(g[k][0] == previous);
                assert(depends(g, k, previous));
            }
        }
    }
}

/// Whether every run stands higher than the runs that it comes from.
pub open spec fn rises_over_runs(height: Map<u128, int>, c: CatalogModel) -> bool {
    forall|k: u128| #[trigger]
        c.runs.contains_key(k) ==> (c.runs[k].parent_run matches Some(parent) ==> height[parent.0]
            < height[k]) && (c.runs[k].input_snapshot matches Some(input) ==> height[input.0]
            < height[k])
}

/// Whether every plan stands higher than the plan that it supersedes.
pub open spec fn rises_over_plans(height: Map<u128, int>, c: CatalogModel) -> bool {
    forall|k: u128| #[trigger]
        c.plans.contains_key(k) ==> (c.plans[k].supersedes matches Some(previous)
            ==> height[previous] < height[k])
}

/// Records that leave the catalog as a whole are taken: a transaction of catalog records
/// is refused only for a record that breaks a rule of its own, or for what the catalog
/// that it would make refers to.
pub proof fn whole_catalogs_are_accepted(
    c: CatalogModel,
    records: Seq<RecordModel>,
    outcome: Result<Catalog, Error>,
    entity_height: Map<u128, nat>,
    run_height: Map<u128, int>,
    plan_height: Map<u128, int>,
)
    requires
        applies(c, records, outcome),
        after_records(c, records) is Ok,
        forall|i: int| 0 <= i < records.len() ==> !((#[trigger] records[i]) is Points),
        ({
            let d = after_records(c, records)->Ok_0;
            &&& rises_over_parents(entity_height, d)
            &&& forall|k: u128| #[trigger]
                d.relations.contains_key(k) ==> d.entities.contains_key(d.relations[k].source.0)
                    && d.entities.contains_key(d.relations[k].target.0)
            &&& forall|k: u64| #[trigger]
                d.series.contains_key(k) ==> (d.series[k].owner_entity matches Some(owner)
                    ==> d.entities.contains_key(owner.0)) && (d.series[k].owner_relation
                    matches Some(owner) ==> d.relations.contains_key(owner.0))
            &&& forall|k: u128| #[trigger]
                d.runs.contains_key(k) ==> (d.runs[k].parent_run matches Some(parent)
                    ==> d.runs.contains_key(parent.0)) && (d.runs[k].input_snapshot matches Some(
                    input,
                ) ==> d.runs.contains_key(input.0))
            &&& forall|k: u128| #[trigger]
                d.plans.contains_key(k) ==> d.runs.contains_key(d.plans[k].run_id.0)
                    && d.runs[d.plans[k].run_id.0].kind == RunKind::Optimization && (
                d.plans[k].supersedes matches Some(previous) ==> d.plans.contains_key(previous))
            &&& rises_over_runs(run_height, d)
            &&& rises_over_plans(plan_height, d)
        }),
    ensures
        outcome matches Ok(catalog) && catalog.model() == after_records(c, records)->Ok_0,
{
    let d = after_records(c, records)->Ok_0;
    assert forall|k: u128| #[trigger] d.entities.contains_key(k) implies entity_stands(d, k) by {
        let p = lemma_descent(entity_height, d, k);
        assert(is_walk(entity_links(d.entities), p));
    }
    let g = run_links(d.runs);
    assert(ranked(g, run_height)) by {
        assert forall|a: u128, b: u128| #[trigger] depends(g, a, b) implies run_height[b]
            < run_height[a] by {
            assert(d.runs.contains_key(a));
            let i = g[a].index_of(b);
            assert(g[a][i] == b);
        }
    }
    let g = plan_links(d.plans);
    assert(ranked(g, plan_height)) by {
        assert forall|a: u128, b: u128| #[trigger] depends(g, a, b) implies plan_height[b]
            < plan_height[a] by {
            assert(d.plans.contains_key(a));
            let i = g[a].index_of(b);
            assert(g[a][i] == b);
        }
    }
    lemma_no_groups(d, records);
}

proof fn lemma_no_groups(c: CatalogModel, records: Seq<RecordModel>)
    requires
        forall|i: int| 0 <= i < records.len() ==> !((#[trigger] records[i]) is Points),
    ensures
        groups_fault(c, records) is None,
    decreases records.len(),
{
    if records.len() > 0 {
        let front = records.drop_last();
        assert forall|i: int| 0 <= i < front.len() implies !((#[trigger] front[i]) is Points) by {
            assert(front[i] == records[i]);
        }
        assert(!(records[records.len() - 1] is Points));
        lemma_no_groups(c, front);
    }
}

/// What a catalog holds after records: under every identifier the last record that names
/// it, and what it held before where none does.
pub proof fn last_records_stay(c: CatalogModel, records: Seq<RecordModel>, i: int)
    requires
        0 <= i < records.len(),
        after_records(c, records) is Ok,
    ensures
        ({
            let d = after_records(c, records)->Ok_0;
            &&& records[i] matches RecordModel::Entity(e) ==> (forall|j: int|
                i < j < records.len() ==> !((#[trigger] records[j]) matches RecordModel::Entity(
                    other,
                ) && other.id == e.id)) ==> d.entities.contains_key(e.id.0) && d.entities[e.id.0]
                == e
            &&& records[i] matches RecordModel::Relation(e) ==> (forall|j: int|
                i < j < records.len() ==> !((#[trigger] records[j]) matches RecordModel::Relation(
                    other,
                ) && other.id == e.id)) ==> d.relations.contains_key(e.id.0) && d.relations[e.id.0]
                == e
            &&& records[i] matches RecordModel::Series(e) ==> (forall|j: int|
                i < j < records.len() ==> !((#[trigger] records[j]) matches RecordModel::Series(
                    other,
                ) && other.id == e.id)) ==> d.series.contains_key(e.id) && d.series[e.id] == e
            &&& records[i] matches RecordModel::Run(e) ==> (forall|j: int|
                i < j < records.len() ==> !((#[trigger] records[j]) matches RecordModel::Run(other)
                    && other.id == e.id)) ==> d.runs.contains_key(e.id.0) && d.runs[e.id.0] == e
            &&& records[i] matches RecordModel::Plan(e) ==> (forall|j: int|
                i < j < records.len() ==> !((#[trigger] records[j]) matches RecordModel::Plan(other)
                    && other.id == e.id)) ==> d.plans.contains_key(e.id) && d.plans[e.id] == e
        }),
    decreases records.len(),
{
    let front = records.drop_last();
    if i < front.len() {
        assert(front[i] == records[i]);
        assert forall|j: int| i < j < front.len() implies front[j] == #[trigger] records[j] by {}
        last_records_stay(c, front, i);
        assert(records[records.len() - 1] == records.last());
    }
}

/// Records change nothing under identifiers that they do not name, and nothing at all
/// where they hold only points.
pub proof fn other_records_stay(c: CatalogModel, records: Seq<RecordModel>)
    requires
        after_records(c, records) is Ok,
    ensures
        ({
            let d = after_records(c, records)->Ok_0;
            &&& forall|k: u128|
                (forall|j: int|
                    0 <= j < records.len() ==> !((#[trigger] records[j])
                        matches RecordModel::Entity(e) && e.id.0 == k)) ==> (
                #[trigger] d.entities.contains_key(k) <==> c.entities.contains_key(k))
                    && d.entities[k] == c.entities[k]
            &&& forall|k: u128|
                (forall|j: int|
                    0 <= j < records.len() ==> !((#[trigger] records[j])
                        matches RecordModel::Relation(e) && e.id.0 == k)) ==> (
                #[trigger] d.relations.contains_key(k) <==> c.relations.contains_key(k))
                    && d.relations[k] == c.relations[k]
            &&& forall|k: u64|
                (forall|j: int|
                    0 <= j < records.len() ==> !((#[trigger] records[j])
                        matches RecordModel::Series(e) && e.id == k)) ==> (
                #[trigger] d.series.contains_key(k) <==> c.series.contains_key(k)) && d.series[k]
                    == c.series[k]
            &&& forall|k: u128|
                (forall|j: int|
                    0 <= j < records.len() ==> !((#[trigger] records[j]) matches RecordModel::Run(
                        e,
                    ) && e.id.0 == k)) ==> (#[trigger] d.runs.contains_key(k)
                    <==> c.runs.contains_key(k)) && d.runs[k] == c.runs[k]
            &&& forall|k: u128|
                (forall|j: int|
                    0 <= j < records.len() ==> !((#[trigger] records[j]) matches RecordModel::Plan(
                        e,
                    ) && e.id == k)) ==> (#[trigger] d.plans.contains_key(k)
                    <==> c.plans.contains_key(k)) && d.plans[k] == c.plans[k]
        }),
    decreases records.len(),
{
    if records.len() > 0 {
        let front = records.drop_last();
        other_records_stay(c, front);
        assert forall|j: int| 0 <= j < front.len() implies front[j] == #[trigger] records[j] by {}
        assert(records[records.len() - 1] == records.last());
    }
}

/// A transaction is taken as a whole or not at all. Points are looked at against the
/// catalog that it makes: a series and its first points come in one transaction.
pub proof fn transactions_are_whole(
    c: CatalogModel,
    records: Seq<RecordModel>,
    outcome: Result<Catalog, Error>,
    i: int,
)
    requires
        applies(c, records, outcome),
        outcome is Ok,
        0 <= i < records.len(),
        records[i] is Points,
    ensures
        ({
            let points = records[i]->Points_0;
            let d = outcome->Ok_0.model();
            forall|n: int|
                #![trigger points[n]]
                0 <= n < points.len() ==> {
                    &&& points[n].valid_time <= points[n].valid_time_end
                    &&& finite(points[n].value)
                    &&& d.series.contains_key(points[n].series_id)
                    &&& points[n].run_id == 0 || d.runs.contains_key(points[n].run_id)
                }
        }),
{
    let d = outcome->Ok_0.model();
    lemma_group(d, records, i);
    points_need(d, records[i]->Points_0);
}

proof fn lemma_group(c: CatalogModel, records: Seq<RecordModel>, i: int)
    requires
        groups_fault(c, records) is None,
        0 <= i < records.len(),
        records[i] is Points,
    ensures
        points_fault(c, records[i]->Points_0) is None,
    decreases records.len(),
{
    if i < records.len() - 1 {
        assert(records.drop_last()[i] == records[i]);
        lemma_group(c, records.drop_last(), i);
    }
}

} // verus!
