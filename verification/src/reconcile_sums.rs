//! What the counts of a reconciliation report add up to.
#[allow(unused_imports)]
use crate::catalog::CatalogModel;
#[allow(unused_imports)]
use crate::map_keys::{sorted_ids, sorted_ids_hold_each_once};
#[allow(unused_imports)]
use crate::model::{EntityModel, PlanModel, RelationModel, RunModel, SeriesModel};
#[allow(unused_imports)]
use crate::point_keys::{
    before, counted, lemma_occurs, names, occurrences, PointCounts, ShadowPointKey,
};
#[allow(unused_imports)]
use crate::sameness::{same_entity, same_plan, same_relation, same_run};
#[allow(unused_imports)]
use crate::shadow_protocol::BatchModel;
#[allow(unused_imports)]
use crate::shadow_reconcile::{
    after_catalog, after_group, after_groups, after_receipt, after_receipts, after_verdict,
    after_verdicts, all_points, blank_report, comparison_fault, counts_points, keys_of,
    last_entities, last_plans, last_relations, last_runs, last_series, noted, noted_all,
    objects_expected, preflight, put_entities, put_plans, put_relations, put_runs, put_series,
    raised, reconciled, verdict_of, window_check, CatalogObjectKind, PointWindow, ReportModel,
    ShadowReconcileLimits, StoredReceipt, Verdict,
};
use vstd::prelude::*;

verus! {

/// How often the identities of the first `n` groups occur among some keys.
spec fn tally(keys: Seq<ShadowPointKey>, groups: Seq<PointCounts>, n: nat) -> nat
    decreases n,
{
    if n == 0 {
        0
    } else {
        tally(keys, groups, (n - 1) as nat) + occurrences(keys, groups[n - 1].point)
    }
}

spec fn distinct(groups: Seq<PointCounts>) -> bool {
    forall|i: int, j: int|
        #![trigger groups[i], groups[j]]
        0 <= i < j < groups.len() ==> groups[i].point != groups[j].point
}

/// One more key counts once, in the group that names it.
proof fn lemma_tally_step(keys: Seq<ShadowPointKey>, groups: Seq<PointCounts>, at: int, n: nat)
    requires
        keys.len() > 0,
        n <= groups.len(),
        distinct(groups),
        0 <= at < groups.len(),
        groups[at].point == keys.last(),
    ensures
        tally(keys, groups, n) == tally(keys.drop_last(), groups, n) + if at < n {
            1nat
        } else {
            0nat
        },
    decreases n,
{
    if n > 0 {
        lemma_tally_step(keys, groups, at, (n - 1) as nat);
        let last = groups[n - 1];
        if at < n - 1 {
            assert(groups[at].point != last.point);
        }
        if at > n - 1 {
            assert(last.point != groups[at].point);
        }
    }
}

/// Groups that name each key count all of them.
proof fn lemma_tally_all(keys: Seq<ShadowPointKey>, groups: Seq<PointCounts>)
    requires
        distinct(groups),
        forall|i: int| 0 <= i < keys.len() ==> names(groups, #[trigger] keys[i]),
    ensures
        tally(keys, groups, groups.len()) == keys.len(),
    decreases keys.len(),
{
    if keys.len() == 0 {
        lemma_tally_none(keys, groups, groups.len());
    } else {
        let front = keys.drop_last();
        assert forall|i: int| 0 <= i < front.len() implies names(groups, #[trigger] front[i]) by {
            assert(front[i] == keys[i]);
        }
        lemma_tally_all(front, groups);
        assert(names(groups, keys[keys.len() - 1]));
        let at = choose|i: int| 0 <= i < groups.len() && (#[trigger] groups[i]).point == keys.last();
        lemma_tally_step(keys, groups, at, groups.len());
    }
}

proof fn lemma_tally_none(keys: Seq<ShadowPointKey>, groups: Seq<PointCounts>, n: nat)
    requires
        keys.len() == 0,
        n <= groups.len(),
    ensures
        tally(keys, groups, n) == 0,
    decreases n,
{
    if n > 0 {
        lemma_tally_none(keys, groups, (n - 1) as nat);
    }
}

/// Whether a report gives the details of as many mismatches as it may.
pub open spec fn well_detailed(r: ReportModel, max_details: usize) -> bool {
    r.mismatch_details.len() == if r.mismatch_groups < max_details {
        r.mismatch_groups as int
    } else {
        max_details as int
    }
}

/// Whether two reports say the same of points.
spec fn same_points(a: ReportModel, b: ReportModel) -> bool {
    &&& a.expected_points == b.expected_points
    &&& a.scanned_points == b.scanned_points
    &&& a.observed_points == b.observed_points
    &&& a.matching_points == b.matching_points
    &&& a.missing_points == b.missing_points
    &&& a.unexpected_points == b.unexpected_points
}

/// Whether two reports say the same of catalog objects.
spec fn same_objects(a: ReportModel, b: ReportModel) -> bool {
    &&& a.expected_catalog_objects == b.expected_catalog_objects
    &&& a.matching_catalog_objects == b.matching_catalog_objects
    &&& a.missing_catalog_objects == b.missing_catalog_objects
    &&& a.different_catalog_objects == b.different_catalog_objects
}

/// How many catalog objects a report has compared.
spec fn objects_compared(r: ReportModel) -> int {
    r.matching_catalog_objects + r.missing_catalog_objects + r.different_catalog_objects
}

proof fn lemma_receipts_apart(
    r: ReportModel,
    max: usize,
    batches: Seq<BatchModel>,
    found: Seq<Option<StoredReceipt>>,
)
    requires
        well_detailed(r, max),
    ensures
        same_points(after_receipts(r, max, batches, found), r),
        same_objects(after_receipts(r, max, batches, found), r),
        well_detailed(after_receipts(r, max, batches, found), max),
    decreases batches.len(),
{
    if batches.len() > 0 {
        lemma_receipts_apart(r, max, batches.drop_last(), found.drop_last());
    }
}

proof fn lemma_verdicts(
    r: ReportModel,
    max: usize,
    kind: CatalogObjectKind,
    ids: Seq<u128>,
    verdict: spec_fn(u128) -> Verdict,
)
    requires
        well_detailed(r, max),
        objects_compared(r) + ids.len() <= usize::MAX,
    ensures
        ({
            let after = after_verdicts(r, max, kind, ids, verdict);
            &&& same_points(after, r)
            &&& after.expected_catalog_objects == r.expected_catalog_objects
            &&& objects_compared(after) == objects_compared(r) + ids.len()
            &&& well_detailed(after, max)
        }),
    decreases ids.len(),
{
    if ids.len() > 0 {
        lemma_verdicts(r, max, kind, ids.drop_last(), verdict);
    }
}

/// The counts of the points that groups compare.
#[verifier::rlimit(30)]
proof fn lemma_groups(
    r: ReportModel,
    max: usize,
    groups: Seq<PointCounts>,
    expected: Seq<ShadowPointKey>,
    actual: Seq<ShadowPointKey>,
    n: nat,
)
    requires
        n <= groups.len(),
        well_detailed(r, max),
        r.matching_points == 0,
        r.missing_points == 0,
        r.unexpected_points == 0,
        forall|i: int|
            #![trigger groups[i]]
            0 <= i < groups.len() ==> groups[i].expected == occurrences(expected, groups[i].point)
                && groups[i].actual == occurrences(actual, groups[i].point),
        tally(expected, groups, n) <= usize::MAX,
        tally(actual, groups, n) <= usize::MAX,
    ensures
        ({
            let after = after_groups(r, max, groups.take(n as int));
            &&& after.matching_points + after.missing_points == tally(expected, groups, n)
            &&& after.matching_points + after.unexpected_points == tally(actual, groups, n)
            &&& after.expected_points == r.expected_points
            &&& after.scanned_points == r.scanned_points
            &&& after.observed_points == r.observed_points
            &&& same_objects(after, r)
            &&& well_detailed(after, max)
        }),
    decreases n,
{
    if n > 0 {
        lemma_groups(r, max, groups, expected, actual, (n - 1) as nat);
        let list = groups.take(n as int);
        assert(list.drop_last() =~= groups.take(n - 1));
        assert(list.last() == groups[n - 1]);
    } else {
        assert(groups.take(0) =~= Seq::<PointCounts>::empty());
    }
}

proof fn lemma_put_entities(m: Map<u128, EntityModel>, list: Seq<EntityModel>)
    requires
        m.dom().finite(),
    ensures
        put_entities(m, list).dom().finite(),
        put_entities(m, list).dom().len() <= m.dom().len() + list.len(),
    decreases list.len(),
{
    if list.len() > 0 {
        lemma_put_entities(m, list.drop_last());
        let before = put_entities(m, list.drop_last());
        let id = list.last().id.0;
        assert(put_entities(m, list).dom() =~= before.dom().insert(id));
    }
}

proof fn lemma_put_relations(m: Map<u128, RelationModel>, list: Seq<RelationModel>)
    requires
        m.dom().finite(),
    ensures
        put_relations(m, list).dom().finite(),
        put_relations(m, list).dom().len() <= m.dom().len() + list.len(),
    decreases list.len(),
{
    if list.len() > 0 {
        lemma_put_relations(m, list.drop_last());
        let before = put_relations(m, list.drop_last());
        let id = list.last().id.0;
        assert(put_relations(m, list).dom() =~= before.dom().insert(id));
    }
}

proof fn lemma_put_series(m: Map<u128, SeriesModel>, list: Seq<SeriesModel>)
    requires
        m.dom().finite(),
    ensures
        put_series(m, list).dom().finite(),
        put_series(m, list).dom().len() <= m.dom().len() + list.len(),
    decreases list.len(),
{
    if list.len() > 0 {
        lemma_put_series(m, list.drop_last());
        let before = put_series(m, list.drop_last());
        let id = list.last().id as u128;
        assert(put_series(m, list).dom() =~= before.dom().insert(id));
    }
}

proof fn lemma_put_runs(m: Map<u128, RunModel>, list: Seq<RunModel>)
    requires
        m.dom().finite(),
    ensures
        put_runs(m, list).dom().finite(),
        put_runs(m, list).dom().len() <= m.dom().len() + list.len(),
    decreases list.len(),
{
    if list.len() > 0 {
        lemma_put_runs(m, list.drop_last());
        let before = put_runs(m, list.drop_last());
        let id = list.last().id.0;
        assert(put_runs(m, list).dom() =~= before.dom().insert(id));
    }
}

proof fn lemma_put_plans(m: Map<u128, PlanModel>, list: Seq<PlanModel>)
    requires
        m.dom().finite(),
    ensures
        put_plans(m, list).dom().finite(),
        put_plans(m, list).dom().len() <= m.dom().len() + list.len(),
    decreases list.len(),
{
    if list.len() > 0 {
        lemma_put_plans(m, list.drop_last());
        let before = put_plans(m, list.drop_last());
        let id = list.last().id;
        assert(put_plans(m, list).dom() =~= before.dom().insert(id));
    }
}

/// What a window counts before it is compared.
pub proof fn lemma_preflight_counts(batches: Seq<BatchModel>, limits: ShadowReconcileLimits, n: nat)
    requires
        n <= batches.len(),
        preflight(batches, limits, n) is Ok,
    ensures
        ({
            let first = batches.take(n as int);
            let (metadata, points) = preflight(batches, limits, n)->Ok_0;
            &&& points == all_points(first).len()
            &&& objects_expected(first) <= metadata
            &&& last_entities(first).dom().finite()
            &&& last_relations(first).dom().finite()
            &&& last_series(first).dom().finite()
            &&& last_runs(first).dom().finite()
            &&& last_plans(first).dom().finite()
        }),
    decreases n,
{
    let first = batches.take(n as int);
    if n == 0 {
        assert(first =~= Seq::<BatchModel>::empty());
        assert(last_entities(first).dom() =~= Set::<u128>::empty());
        assert(last_relations(first).dom() =~= Set::<u128>::empty());
        assert(last_series(first).dom() =~= Set::<u128>::empty());
        assert(last_runs(first).dom() =~= Set::<u128>::empty());
        assert(last_plans(first).dom() =~= Set::<u128>::empty());
    } else {
        lemma_preflight_counts(batches, limits, (n - 1) as nat);
        let front = batches.take(n - 1);
        let b = batches[n - 1];
        assert(first.drop_last() =~= front);
        assert(first.last() == b);
        lemma_put_entities(last_entities(front), b.entities);
        lemma_put_relations(last_relations(front), b.relations);
        lemma_put_series(last_series(front), b.series);
        lemma_put_runs(last_runs(front), b.runs);
        lemma_put_plans(last_plans(front), b.plans);
    }
}

/// The report on the catalog of a window that fits.
proof fn lemma_catalog_counts(r: ReportModel, max: usize, batches: Seq<BatchModel>, c: CatalogModel)
    requires
        well_detailed(r, max),
        objects_compared(r) == 0,
        objects_expected(batches) <= usize::MAX,
        last_entities(batches).dom().finite(),
        last_relations(batches).dom().finite(),
        last_series(batches).dom().finite(),
        last_runs(batches).dom().finite(),
        last_plans(batches).dom().finite(),
    ensures
        ({
            let after = after_catalog(r, max, batches, c);
            &&& same_points(after, r)
            &&& after.expected_catalog_objects == objects_expected(batches)
            &&& objects_compared(after) == objects_expected(batches)
            &&& well_detailed(after, max)
        }),
{
    let r0 = ReportModel { expected_catalog_objects: raised(0, objects_expected(batches)), ..r };
    let entities = last_entities(batches);
    let relations = last_relations(batches);
    let series = last_series(batches);
    let runs = last_runs(batches);
    let plans = last_plans(batches);
    sorted_ids_hold_each_once(entities.dom());
    sorted_ids_hold_each_once(relations.dom());
    sorted_ids_hold_each_once(series.dom());
    sorted_ids_hold_each_once(runs.dom());
    sorted_ids_hold_each_once(plans.dom());
    let v1 = |id: u128|
        verdict_of(c.entities.contains_key(id), same_entity(c.entities[id], entities[id]));
    let v2 = |id: u128|
        verdict_of(c.relations.contains_key(id), same_relation(c.relations[id], relations[id]));
    let v3 = |id: u128|
        verdict_of(c.series.contains_key(id as u64), c.series[id as u64] == series[id]);
    let v4 = |id: u128| verdict_of(c.runs.contains_key(id), same_run(c.runs[id], runs[id]));
    let v5 = |id: u128| verdict_of(c.plans.contains_key(id), same_plan(c.plans[id], plans[id]));
    let k1 = sorted_ids(entities.dom());
    let k2 = sorted_ids(relations.dom());
    let k3 = sorted_ids(series.dom());
    let k4 = sorted_ids(runs.dom());
    let k5 = sorted_ids(plans.dom());
    let r1 = after_verdicts(r0, max, CatalogObjectKind::Entity, k1, v1);
    let r2 = after_verdicts(r1, max, CatalogObjectKind::Relation, k2, v2);
    let r3 = after_verdicts(r2, max, CatalogObjectKind::Series, k3, v3);
    let r4 = after_verdicts(r3, max, CatalogObjectKind::Run, k4, v4);
    lemma_verdicts(r0, max, CatalogObjectKind::Entity, k1, v1);
    lemma_verdicts(r1, max, CatalogObjectKind::Relation, k2, v2);
    lemma_verdicts(r2, max, CatalogObjectKind::Series, k3, v3);
    lemma_verdicts(r3, max, CatalogObjectKind::Run, k4, v4);
    lemma_verdicts(r4, max, CatalogObjectKind::Plan, k5, v5);
    assert(after_catalog(r, max, batches, c) == after_verdicts(
        r4,
        max,
        CatalogObjectKind::Plan,
        k5,
        v5,
    ));
}

/// The counts of a report add up. Every expected point matches or is missing, every
/// observed point matches or is unexpected, and no more are observed than the limit
/// allows. Every expected catalog object matches, is missing or differs. As many
/// mismatches are given in detail as the limit allows, and the report says where these
/// are not all.
pub proof fn reports_add_up(
    result: ReportModel,
    batches: Seq<BatchModel>,
    limits: ShadowReconcileLimits,
    found: Seq<Option<StoredReceipt>>,
    c: CatalogModel,
    window: PointWindow,
)
    requires
        comparison_fault(batches, limits, window) is None,
        window.expected() == keys_of(all_points(batches)),
        reconciled(
            result,
            batches,
            limits,
            window_check(batches, limits)->Ok_0 as usize,
            found,
            c,
            window,
        ),
    ensures
        result.expected_points == all_points(batches).len(),
        result.matching_points + result.missing_points == result.expected_points,
        result.matching_points + result.unexpected_points == result.observed_points,
        result.observed_points == window.observed().len(),
        result.observed_points <= limits.max_observed_points,
        result.scanned_points <= limits.max_scanned_points,
        result.expected_catalog_objects == objects_expected(batches),
        result.matching_catalog_objects + result.missing_catalog_objects
            + result.different_catalog_objects == result.expected_catalog_objects,
        well_detailed(result, limits.max_mismatch_details),
        result.details_truncated <==> result.mismatch_details.len() < result.mismatch_groups,
{
    let max = limits.max_mismatch_details;
    let points = window_check(batches, limits)->Ok_0;
    assert(batches.take(batches.len() as int) =~= batches);
    lemma_preflight_counts(batches, limits, batches.len());
    let blank = blank_report(batches.len() as usize, points as usize);
    let r1 = after_receipts(blank, max, batches, found);
    lemma_receipts_apart(blank, max, batches, found);
    let r2 = after_catalog(r1, max, batches, c);
    lemma_catalog_counts(r1, max, batches, c);
    let r = choose|r: ReportModel|
        #![trigger noted_all(r)]
        counts_points(r, r2, max, window) && result == noted_all(r);
    let start = ReportModel {
        scanned_points: window.scanned(),
        observed_points: window.observed().len() as usize,
        ..r2
    };
    let groups = choose|groups: Seq<PointCounts>| #[trigger]
        counted(groups, window.expected(), window.observed()) && r == after_groups(
            start,
            max,
            groups,
        );
    let expected = window.expected();
    let observed = window.observed();
    assert(distinct(groups)) by {
        assert forall|i: int, j: int|
            #![trigger groups[i], groups[j]]
            0 <= i < j < groups.len() implies groups[i].point != groups[j].point by {
            assert(before(groups[i].point, groups[j].point));
        }
    }
    assert forall|i: int| 0 <= i < expected.len() implies names(groups, #[trigger] expected[i]) by {
        lemma_occurs(expected, i);
    }
    assert forall|i: int| 0 <= i < observed.len() implies names(groups, #[trigger] observed[i]) by {
        lemma_occurs(observed, i);
    }
    lemma_tally_all(expected, groups);
    lemma_tally_all(observed, groups);
    lemma_groups(start, max, groups, expected, observed, groups.len());
    assert(groups.take(groups.len() as int) =~= groups);
}

} // verus!
