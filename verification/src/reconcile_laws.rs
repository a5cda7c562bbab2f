//! What a reconciliation report means: when the copy at the source may be released, and
//! what each of its counts has counted.
#[allow(unused_imports)]
use crate::catalog::CatalogModel;
#[allow(unused_imports)]
use crate::counting::{how_many, lemma_how_many};
#[allow(unused_imports)]
use crate::map_keys::{sorted_ids, sorted_ids_hold_each_once};
#[allow(unused_imports)]
use crate::model::Point;
#[allow(unused_imports)]
use crate::point_keys::{counted, key_of, occurrences, same_contents, PointCounts, ShadowPointKey};
#[allow(unused_imports)]
use crate::reconcile_sums::lemma_preflight_counts;
#[allow(unused_imports)]
use crate::sameness::{same_entity, same_plan, same_relation, same_run};
#[allow(unused_imports)]
use crate::shadow_protocol::BatchModel;
#[allow(unused_imports)]
use crate::shadow_reconcile::{
    after_catalog, after_groups, after_receipt, after_receipts, after_verdict, after_verdicts,
    all_content_matches, all_points, blank_report, comparison_fault, counts_points, keys_of,
    last_entities, last_plans, last_relations, last_runs, last_series, noted_all, objects_expected,
    points_match_exactly, raised, reconciled, verdict_of, window_check, CatalogMismatch,
    CatalogObjectKind, PointWindow, ReportModel, ShadowReconcileDetail, ShadowReconcileLimits,
    ShadowReconciliationReport, StoredReceipt, Verdict,
};
#[allow(unused_imports)]
use crate::storage::IngressIdentity;
use vstd::prelude::*;

verus! {

/// What the comparison of receipts leaves alone.
spec fn same_but_receipts(a: ReportModel, b: ReportModel) -> bool {
    &&& a.missing_catalog_objects == b.missing_catalog_objects
    &&& a.different_catalog_objects == b.different_catalog_objects
    &&& a.matching_catalog_objects == b.matching_catalog_objects
    &&& a.matching_points == b.matching_points
    &&& a.missing_points == b.missing_points
    &&& a.unexpected_points == b.unexpected_points
    &&& a.expected_batches == b.expected_batches
    &&& a.expected_points == b.expected_points
}

/// What the comparison of catalog objects and points leaves alone.
spec fn same_receipts(a: ReportModel, b: ReportModel) -> bool {
    &&& a.missing_receipts == b.missing_receipts
    &&& a.conflicting_receipts == b.conflicting_receipts
    &&& a.receipt_shape_mismatches == b.receipt_shape_mismatches
    &&& a.receipt_payload_mismatches == b.receipt_payload_mismatches
    &&& a.nondurable_receipts == b.nondurable_receipts
    &&& a.matching_receipts == b.matching_receipts
    &&& a.expected_batches == b.expected_batches
    &&& a.expected_points == b.expected_points
}

/// How many records the transaction of a batch has: one for each catalog object, and one
/// for its points if it has any.
pub open spec fn wanted_records(b: BatchModel) -> int {
    b.entities.len() + b.relations.len() + b.series.len() + b.runs.len() + b.plans.len()
        + if b.points.len() == 0 {
        0int
    } else {
        1int
    }
}

/// The receipts of the first batches, counted.
#[verifier::rlimit(40)]
proof fn lemma_receipts(
    r: ReportModel,
    max: usize,
    batches: Seq<BatchModel>,
    found: Seq<Option<StoredReceipt>>,
    n: nat,
)
    requires
        n <= batches.len() <= usize::MAX,
        found.len() == batches.len(),
        r.missing_receipts == 0,
        r.conflicting_receipts == 0,
        r.receipt_shape_mismatches == 0,
        r.receipt_payload_mismatches == 0,
        r.nondurable_receipts == 0,
        r.matching_receipts == 0,
    ensures
        ({
            let after = after_receipts(r, max, batches.take(n as int), found.take(n as int));
            &&& same_but_receipts(after, r)
            &&& after.missing_receipts == how_many(n, |i: int| found[i] is None)
            &&& after.nondurable_receipts == how_many(
                n,
                |i: int| found[i] is Some && !found[i]->Some_0.durable,
            )
            &&& after.conflicting_receipts == how_many(
                n,
                |i: int| found[i] is Some && found[i]->Some_0.commit_id != batches[i].commit_id,
            )
            &&& after.receipt_shape_mismatches == how_many(
                n,
                |i: int|
                    found[i] is Some && (found[i]->Some_0.records != wanted_records(batches[i])
                        || found[i]->Some_0.points != batches[i].points.len()),
            )
            &&& after.receipt_payload_mismatches == how_many(
                n,
                |i: int|
                    found[i] is Some && found[i]->Some_0.commit_id == batches[i].commit_id
                        && !found[i]->Some_0.payload_matches,
            )
            &&& after.matching_receipts == how_many(
                n,
                |i: int|
                    found[i] is Some && found[i]->Some_0.commit_id == batches[i].commit_id
                        && found[i]->Some_0.records == wanted_records(batches[i])
                        && found[i]->Some_0.points == batches[i].points.len()
                        && found[i]->Some_0.payload_matches,
            )
        }),
    decreases n,
{
    let p1 = |i: int| found[i] is None;
    let p2 = |i: int| found[i] is Some && !found[i]->Some_0.durable;
    let p3 = |i: int| found[i] is Some && found[i]->Some_0.commit_id != batches[i].commit_id;
    let p4 = |i: int|
        found[i] is Some && (found[i]->Some_0.records != wanted_records(batches[i])
            || found[i]->Some_0.points != batches[i].points.len());
    let p5 = |i: int|
        found[i] is Some && found[i]->Some_0.commit_id == batches[i].commit_id
            && !found[i]->Some_0.payload_matches;
    let p6 = |i: int|
        found[i] is Some && found[i]->Some_0.commit_id == batches[i].commit_id
            && found[i]->Some_0.records == wanted_records(batches[i]) && found[i]->Some_0.points
            == batches[i].points.len() && found[i]->Some_0.payload_matches;
    if n == 0 {
        assert(batches.take(0) =~= Seq::<BatchModel>::empty());
    } else {
        let m = (n - 1) as nat;
        lemma_receipts(r, max, batches, found, m);
        lemma_how_many(m, p1);
        lemma_how_many(m, p2);
        lemma_how_many(m, p3);
        lemma_how_many(m, p4);
        lemma_how_many(m, p5);
        lemma_how_many(m, p6);
        assert(batches.take(n as int).drop_last() =~= batches.take(m as int));
        assert(found.take(n as int).drop_last() =~= found.take(m as int));
        assert(batches.take(n as int).last() == batches[m as int]);
        assert(found.take(n as int).last() == found[m as int]);
    }
}

/// The verdicts on some objects, counted.
proof fn lemma_verdicts_counted(
    r: ReportModel,
    max: usize,
    kind: CatalogObjectKind,
    ids: Seq<u128>,
    verdict: spec_fn(u128) -> Verdict,
    n: nat,
)
    requires
        n <= ids.len(),
        r.missing_catalog_objects + r.different_catalog_objects + r.matching_catalog_objects
            + ids.len() <= usize::MAX,
    ensures
        ({
            let after = after_verdicts(r, max, kind, ids.take(n as int), verdict);
            &&& same_receipts(after, r)
            &&& after.matching_points == r.matching_points
            &&& after.missing_points == r.missing_points
            &&& after.unexpected_points == r.unexpected_points
            &&& after.missing_catalog_objects == r.missing_catalog_objects + how_many(
                n,
                |i: int| verdict(ids[i]) == Verdict::Missing,
            )
            &&& after.different_catalog_objects == r.different_catalog_objects + how_many(
                n,
                |i: int| verdict(ids[i]) == Verdict::Different,
            )
            &&& after.matching_catalog_objects == r.matching_catalog_objects + how_many(
                n,
                |i: int| verdict(ids[i]) == Verdict::Same,
            )
            &&& after.missing_catalog_objects + after.different_catalog_objects
                + after.matching_catalog_objects == r.missing_catalog_objects
                + r.different_catalog_objects + r.matching_catalog_objects + n
        }),
    decreases n,
{
    let p1 = |i: int| verdict(ids[i]) == Verdict::Missing;
    let p2 = |i: int| verdict(ids[i]) == Verdict::Different;
    let p3 = |i: int| verdict(ids[i]) == Verdict::Same;
    if n == 0 {
        assert(ids.take(0) =~= Seq::<u128>::empty());
    } else {
        let m = (n - 1) as nat;
        lemma_verdicts_counted(r, max, kind, ids, verdict, m);
        lemma_how_many(m, p1);
        lemma_how_many(m, p2);
        lemma_how_many(m, p3);
        assert(ids.take(n as int).drop_last() =~= ids.take(m as int));
        assert(ids.take(n as int).last() == ids[m as int]);
    }
}

/// The verdicts on the objects of one kind: none is missing and none differs exactly where
/// all are the same.
proof fn lemma_kind(
    r: ReportModel,
    max: usize,
    kind: CatalogObjectKind,
    dom: Set<u128>,
    verdict: spec_fn(u128) -> Verdict,
)
    requires
        dom.finite(),
        r.missing_catalog_objects + r.different_catalog_objects + r.matching_catalog_objects
            + dom.len() <= usize::MAX,
    ensures
        ({
            let after = after_verdicts(r, max, kind, sorted_ids(dom), verdict);
            &&& same_receipts(after, r)
            &&& after.matching_points == r.matching_points
            &&& after.missing_points == r.missing_points
            &&& after.unexpected_points == r.unexpected_points
            &&& after.missing_catalog_objects >= r.missing_catalog_objects
            &&& after.different_catalog_objects >= r.different_catalog_objects
            &&& after.missing_catalog_objects == r.missing_catalog_objects <==> forall|id: u128| #[trigger]
                dom.contains(id) ==> verdict(id) != Verdict::Missing
            &&& after.different_catalog_objects == r.different_catalog_objects <==> forall|
                id: u128,
            | #[trigger] dom.contains(id) ==> verdict(id) != Verdict::Different
            &&& after.missing_catalog_objects + after.different_catalog_objects
                + after.matching_catalog_objects == r.missing_catalog_objects
                + r.different_catalog_objects + r.matching_catalog_objects + dom.len()
        }),
{
    sorted_ids_hold_each_once(dom);
    let ids = sorted_ids(dom);
    let n = ids.len();
    assert(ids.take(n as int) =~= ids);
    lemma_verdicts_counted(r, max, kind, ids, verdict, n);
    let p1 = |i: int| verdict(ids[i]) == Verdict::Missing;
    let p2 = |i: int| verdict(ids[i]) == Verdict::Different;
    lemma_how_many(n, p1);
    lemma_how_many(n, p2);
    if how_many(n, p1) == 0 {
        assert forall|id: u128| #[trigger] dom.contains(id) implies verdict(id)
            != Verdict::Missing by {
            assert(ids.contains(id));
            assert(!p1(ids.index_of(id)));
        }
    } else {
        let i = choose|i: int| 0 <= i < n && #[trigger] p1(i);
        assert(ids.contains(ids[i]));
        assert(dom.contains(ids[i]));
    }
    if how_many(n, p2) == 0 {
        assert forall|id: u128| #[trigger] dom.contains(id) implies verdict(id)
            != Verdict::Different by {
            assert(ids.contains(id));
            assert(!p2(ids.index_of(id)));
        }
    } else {
        let i = choose|i: int| 0 <= i < n && #[trigger] p2(i);
        assert(ids.contains(ids[i]));
        assert(dom.contains(ids[i]));
    }
}

/// Whether a catalog holds the last supplied form of each object.
pub open spec fn holds_last_forms(c: CatalogModel, batches: Seq<BatchModel>) -> bool {
    &&& forall|id: u128| #[trigger]
        last_entities(batches).contains_key(id) ==> c.entities.contains_key(id) && same_entity(
            c.entities[id],
            last_entities(batches)[id],
        )
    &&& forall|id: u128| #[trigger]
        last_relations(batches).contains_key(id) ==> c.relations.contains_key(id) && same_relation(
            c.relations[id],
            last_relations(batches)[id],
        )
    &&& forall|id: u128| #[trigger]
        last_series(batches).contains_key(id) ==> c.series.contains_key(id as u64)
            && c.series[id as u64] == last_series(batches)[id]
    &&& forall|id: u128| #[trigger]
        last_runs(batches).contains_key(id) ==> c.runs.contains_key(id) && same_run(
            c.runs[id],
            last_runs(batches)[id],
        )
    &&& forall|id: u128| #[trigger]
        last_plans(batches).contains_key(id) ==> c.plans.contains_key(id) && same_plan(
            c.plans[id],
            last_plans(batches)[id],
        )
}

/// The report on the catalog of a window that fits.
#[verifier::spinoff_prover]
#[verifier::rlimit(60)]
proof fn lemma_catalog(r: ReportModel, max: usize, batches: Seq<BatchModel>, c: CatalogModel)
    requires
        r.missing_catalog_objects == 0,
        r.different_catalog_objects == 0,
        r.matching_catalog_objects == 0,
        objects_expected(batches) <= usize::MAX,
        last_entities(batches).dom().finite(),
        last_relations(batches).dom().finite(),
        last_series(batches).dom().finite(),
        last_runs(batches).dom().finite(),
        last_plans(batches).dom().finite(),
    ensures
        ({
            let after = after_catalog(r, max, batches, c);
            &&& same_receipts(after, r)
            &&& after.matching_points == r.matching_points
            &&& after.missing_points == r.missing_points
            &&& after.unexpected_points == r.unexpected_points
            &&& after.missing_catalog_objects == 0 && after.different_catalog_objects == 0
                <==> holds_last_forms(c, batches)
        }),
{
    let r0 = ReportModel { expected_catalog_objects: raised(0, objects_expected(batches)), ..r };
    let entities = last_entities(batches);
    let relations = last_relations(batches);
    let series = last_series(batches);
    let runs = last_runs(batches);
    let plans = last_plans(batches);
    let v1 = |id: u128|
        verdict_of(c.entities.contains_key(id), same_entity(c.entities[id], entities[id]));
    let v2 = |id: u128|
        verdict_of(c.relations.contains_key(id), same_relation(c.relations[id], relations[id]));
    let v3 = |id: u128|
        verdict_of(c.series.contains_key(id as u64), c.series[id as u64] == series[id]);
    let v4 = |id: u128| verdict_of(c.runs.contains_key(id), same_run(c.runs[id], runs[id]));
    let v5 = |id: u128| verdict_of(c.plans.contains_key(id), same_plan(c.plans[id], plans[id]));
    let r1 = after_verdicts(r0, max, CatalogObjectKind::Entity, sorted_ids(entities.dom()), v1);
    lemma_kind(r0, max, CatalogObjectKind::Entity, entities.dom(), v1);
    let r2 = after_verdicts(r1, max, CatalogObjectKind::Relation, sorted_ids(relations.dom()), v2);
    lemma_kind(r1, max, CatalogObjectKind::Relation, relations.dom(), v2);
    let r3 = after_verdicts(r2, max, CatalogObjectKind::Series, sorted_ids(series.dom()), v3);
    lemma_kind(r2, max, CatalogObjectKind::Series, series.dom(), v3);
    let r4 = after_verdicts(r3, max, CatalogObjectKind::Run, sorted_ids(runs.dom()), v4);
    lemma_kind(r3, max, CatalogObjectKind::Run, runs.dom(), v4);
    let r5 = after_verdicts(r4, max, CatalogObjectKind::Plan, sorted_ids(plans.dom()), v5);
    lemma_kind(r4, max, CatalogObjectKind::Plan, plans.dom(), v5);
    assert(after_catalog(r, max, batches, c) == r5);
    let all_same = {
        &&& forall|id: u128| #[trigger] entities.dom().contains(id) ==> v1(id) == Verdict::Same
        &&& forall|id: u128| #[trigger] relations.dom().contains(id) ==> v2(id) == Verdict::Same
        &&& forall|id: u128| #[trigger] series.dom().contains(id) ==> v3(id) == Verdict::Same
        &&& forall|id: u128| #[trigger] runs.dom().contains(id) ==> v4(id) == Verdict::Same
        &&& forall|id: u128| #[trigger] plans.dom().contains(id) ==> v5(id) == Verdict::Same
    };
    assert((r5.missing_catalog_objects == 0 && r5.different_catalog_objects == 0) == all_same);
    if all_same {
        assert forall|id: u128| #[trigger] entities.contains_key(id) implies c.entities.contains_key(
            id,
        ) && same_entity(c.entities[id], entities[id]) by {
            assert(v1(id) == Verdict::Same);
        }
        assert forall|id: u128| #[trigger] relations.contains_key(
            id,
        ) implies c.relations.contains_key(id) && same_relation(
            c.relations[id],
            relations[id],
        ) by {
            assert(v2(id) == Verdict::Same);
        }
        assert forall|id: u128| #[trigger] series.contains_key(id) implies c.series.contains_key(
            id as u64,
        ) && c.series[id as u64] == series[id] by {
            assert(v3(id) == Verdict::Same);
        }
        assert forall|id: u128| #[trigger] runs.contains_key(id) implies c.runs.contains_key(id)
            && same_run(c.runs[id], runs[id]) by {
            assert(v4(id) == Verdict::Same);
        }
        assert forall|id: u128| #[trigger] plans.contains_key(id) implies c.plans.contains_key(id)
            && same_plan(c.plans[id], plans[id]) by {
            assert(v5(id) == Verdict::Same);
        }
    }
    if holds_last_forms(c, batches) {
        assert forall|id: u128| #[trigger] entities.dom().contains(id) implies v1(id)
            == Verdict::Same by {
            assert(entities.contains_key(id));
        }
        assert forall|id: u128| #[trigger] relations.dom().contains(id) implies v2(id)
            == Verdict::Same by {
            assert(relations.contains_key(id));
        }
        assert forall|id: u128| #[trigger] series.dom().contains(id) implies v3(id)
            == Verdict::Same by {
            assert(series.contains_key(id));
        }
        assert forall|id: u128| #[trigger] runs.dom().contains(id) implies v4(id)
            == Verdict::Same by {
            assert(runs.contains_key(id));
        }
        assert forall|id: u128| #[trigger] plans.dom().contains(id) implies v5(id)
            == Verdict::Same by {
            assert(plans.contains_key(id));
        }
    }
}

/// An identity occurs as often as a multiset of all counts it.
proof fn lemma_multiset(keys: Seq<ShadowPointKey>, k: ShadowPointKey)
    ensures
        keys.to_multiset().count(k) == occurrences(keys, k),
    decreases keys.len(),
{
    broadcast use vstd::seq_lib::group_to_multiset_ensures;

    if keys.len() > 0 {
        lemma_multiset(keys.drop_last(), k);
        assert(keys =~= keys.drop_last().push(keys.last()));
    }
}

/// What points leave alone.
proof fn lemma_points_apart(r: ReportModel, max: usize, groups: Seq<PointCounts>)
    ensures
        ({
            let after = after_groups(r, max, groups);
            &&& same_receipts(after, r)
            &&& after.missing_catalog_objects == r.missing_catalog_objects
            &&& after.different_catalog_objects == r.different_catalog_objects
        }),
    decreases groups.len(),
{
    if groups.len() > 0 {
        lemma_points_apart(r, max, groups.drop_last());
    }
}

/// Content matches exactly where the store holds what was sent. There is a receipt for each
/// batch, of its commit, with its records and points and its bytes; the catalog holds the
/// last supplied form of each object; and the store has shown the points of the batches,
/// each as often as it was sent, and no others. The copy at the source may be released
/// exactly where, beyond that, each receipt is durable.
pub proof fn content_matches_where_the_store_holds_it(
    report: ShadowReconciliationReport,
    batches: Seq<BatchModel>,
    limits: ShadowReconcileLimits,
    found: Seq<Option<StoredReceipt>>,
    c: CatalogModel,
    window: PointWindow,
    matches: bool,
    ready: bool,
)
    requires
        comparison_fault(batches, limits, window) is None,
        found.len() == batches.len(),
        window.expected() == keys_of(all_points(batches)),
        reconciled(
            report@,
            batches,
            limits,
            window_check(batches, limits)->Ok_0 as usize,
            found,
            c,
            window,
        ),
        matches == all_content_matches(report@),
        ready == (all_content_matches(report@) && report@.nondurable_receipts == 0),
    ensures
        matches <==> {
            &&& forall|i: int|
                #![trigger found[i]]
                0 <= i < batches.len() ==> {
                    &&& found[i] is Some
                    &&& found[i]->Some_0.commit_id == batches[i].commit_id
                    &&& found[i]->Some_0.records == wanted_records(batches[i])
                    &&& found[i]->Some_0.points == batches[i].points.len()
                    &&& found[i]->Some_0.payload_matches
                }
            &&& holds_last_forms(c, batches)
            &&& window.observed().to_multiset() == keys_of(all_points(batches)).to_multiset()
        },
        ready <==> matches && forall|i: int|
            #![trigger found[i]]
            0 <= i < batches.len() ==> found[i]->Some_0.durable,
{
    let result = report@;
    let max = limits.max_mismatch_details;
    let points = window_check(batches, limits)->Ok_0;
    assert(batches.take(batches.len() as int) =~= batches);
    assert(found.take(found.len() as int) =~= found);
    lemma_preflight_counts(batches, limits, batches.len());
    let blank = blank_report(batches.len() as usize, points as usize);
    let r1 = after_receipts(blank, max, batches, found);
    lemma_receipts(blank, max, batches, found, batches.len());
    let r2 = after_catalog(r1, max, batches, c);
    lemma_catalog(r1, max, batches, c);
    let r = choose|r: ReportModel|
        #![trigger noted_all(r)]
        counts_points(r, r2, max, window) && result == noted_all(r);
    points_match_exactly(r, r2, max, window);
    let start = ReportModel {
        scanned_points: window.scanned(),
        observed_points: window.observed().len() as usize,
        ..r2
    };
    let groups = choose|groups: Seq<PointCounts>| #[trigger]
        counted(groups, window.expected(), window.observed()) && r == after_groups(
            start,
            max,
            groups,
        );
    lemma_points_apart(start, max, groups);
    let n = batches.len();
    let p1 = |i: int| found[i] is None;
    let p2 = |i: int| found[i] is Some && !found[i]->Some_0.durable;
    let p3 = |i: int| found[i] is Some && found[i]->Some_0.commit_id != batches[i].commit_id;
    let p4 = |i: int|
        found[i] is Some && (found[i]->Some_0.records != wanted_records(batches[i])
            || found[i]->Some_0.points != batches[i].points.len());
    let p5 = |i: int|
        found[i] is Some && found[i]->Some_0.commit_id == batches[i].commit_id
            && !found[i]->Some_0.payload_matches;
    lemma_how_many(n, p1);
    lemma_how_many(n, p2);
    lemma_how_many(n, p3);
    lemma_how_many(n, p4);
    lemma_how_many(n, p5);
    assert(result.missing_receipts == how_many(n, p1));
    assert(result.nondurable_receipts == how_many(n, p2));
    assert(result.conflicting_receipts == how_many(n, p3));
    assert(result.receipt_shape_mismatches == how_many(n, p4));
    assert(result.receipt_payload_mismatches == how_many(n, p5));
    let a = window.observed();
    let b = window.expected();
    assert(same_contents(b, a) <==> a.to_multiset() == b.to_multiset()) by {
        if same_contents(b, a) {
            assert forall|k: ShadowPointKey| a.to_multiset().count(k) == b.to_multiset().count(k) by {
                lemma_multiset(a, k);
                lemma_multiset(b, k);
                assert(occurrences(b, k) == occurrences(a, k));
            }
            assert(a.to_multiset() =~= b.to_multiset());
        }
        if a.to_multiset() == b.to_multiset() {
            assert forall|k: ShadowPointKey| #[trigger] occurrences(b, k) == occurrences(a, k) by {
                lemma_multiset(a, k);
                lemma_multiset(b, k);
            }
        }
    }
    let receipts = forall|i: int|
        #![trigger found[i]]
        0 <= i < batches.len() ==> {
            &&& found[i] is Some
            &&& found[i]->Some_0.commit_id == batches[i].commit_id
            &&& found[i]->Some_0.records == wanted_records(batches[i])
            &&& found[i]->Some_0.points == batches[i].points.len()
            &&& found[i]->Some_0.payload_matches
        };
    if how_many(n, p1) == 0 && how_many(n, p3) == 0 && how_many(n, p4) == 0 && how_many(n, p5)
        == 0 {
        assert forall|i: int| #![trigger found[i]] 0 <= i < batches.len() implies {
            &&& found[i] is Some
            &&& found[i]->Some_0.commit_id == batches[i].commit_id
            &&& found[i]->Some_0.records == wanted_records(batches[i])
            &&& found[i]->Some_0.points == batches[i].points.len()
            &&& found[i]->Some_0.payload_matches
        } by {
            assert(!p1(i) && !p3(i) && !p4(i) && !p5(i));
        }
        assert(receipts);
    }
    if receipts {
        assert forall|i: int| 0 <= i < n implies !(#[trigger] p1(i)) by {
            assert(found[i] is Some);
        }
        assert forall|i: int| 0 <= i < n implies !(#[trigger] p3(i)) by {
            assert(found[i] is Some);
        }
        assert forall|i: int| 0 <= i < n implies !(#[trigger] p4(i)) by {
            assert(found[i] is Some);
        }
        assert forall|i: int| 0 <= i < n implies !(#[trigger] p5(i)) by {
            assert(found[i] is Some);
        }
        if how_many(n, p2) == 0 {
            assert forall|i: int|
                #![trigger found[i]]
                0 <= i < batches.len() implies found[i]->Some_0.durable by {
                assert(!p2(i));
            }
        }
        if forall|i: int|
            #![trigger found[i]]
            0 <= i < batches.len() ==> found[i]->Some_0.durable {
            assert forall|i: int| 0 <= i < n implies !(#[trigger] p2(i)) by {
                assert(found[i]->Some_0.durable);
            }
        }
    }
}

/// What the counts of receipts have counted: those that are missing, those that are not
/// durable, those of another commit, those of another shape, those of other bytes, and
/// those that match in all of it.
pub proof fn receipts_are_counted(
    result: ReportModel,
    batches: Seq<BatchModel>,
    limits: ShadowReconcileLimits,
    found: Seq<Option<StoredReceipt>>,
    c: CatalogModel,
    window: PointWindow,
)
    requires
        comparison_fault(batches, limits, window) is None,
        found.len() == batches.len(),
        reconciled(
            result,
            batches,
            limits,
            window_check(batches, limits)->Ok_0 as usize,
            found,
            c,
            window,
        ),
    ensures
        result.expected_batches == batches.len(),
        result.missing_receipts == how_many(batches.len(), |i: int| found[i] is None),
        result.nondurable_receipts == how_many(
            batches.len(),
            |i: int| found[i] is Some && !found[i]->Some_0.durable,
        ),
        result.conflicting_receipts == how_many(
            batches.len(),
            |i: int| found[i] is Some && found[i]->Some_0.commit_id != batches[i].commit_id,
        ),
        result.receipt_shape_mismatches == how_many(
            batches.len(),
            |i: int|
                found[i] is Some && (found[i]->Some_0.records != wanted_records(batches[i])
                    || found[i]->Some_0.points != batches[i].points.len()),
        ),
        result.receipt_payload_mismatches == how_many(
            batches.len(),
            |i: int|
                found[i] is Some && found[i]->Some_0.commit_id == batches[i].commit_id
                    && !found[i]->Some_0.payload_matches,
        ),
        result.matching_receipts == how_many(
            batches.len(),
            |i: int|
                found[i] is Some && found[i]->Some_0.commit_id == batches[i].commit_id
                    && found[i]->Some_0.records == wanted_records(batches[i])
                    && found[i]->Some_0.points == batches[i].points.len()
                    && found[i]->Some_0.payload_matches,
        ),
{
    let max = limits.max_mismatch_details;
    let points = window_check(batches, limits)->Ok_0;
    assert(batches.take(batches.len() as int) =~= batches);
    assert(found.take(found.len() as int) =~= found);
    lemma_preflight_counts(batches, limits, batches.len());
    let blank = blank_report(batches.len() as usize, points as usize);
    let r1 = after_receipts(blank, max, batches, found);
    lemma_receipts(blank, max, batches, found, batches.len());
    let r2 = after_catalog(r1, max, batches, c);
    lemma_catalog(r1, max, batches, c);
    let r = choose|r: ReportModel|
        #![trigger noted_all(r)]
        counts_points(r, r2, max, window) && result == noted_all(r);
    let start = ReportModel {
        scanned_points: window.scanned(),
        observed_points: window.observed().len() as usize,
        ..r2
    };
    let groups = choose|groups: Seq<PointCounts>| #[trigger]
        counted(groups, window.expected(), window.observed()) && r == after_groups(
            start,
            max,
            groups,
        );
    lemma_points_apart(start, max, groups);
}

/// Two points have one identity only where they are the same in every field, bit by bit.
pub proof fn identities_tell_points_apart(a: Point, b: Point)
    ensures
        key_of(a) == key_of(b) <==> a == b,
{
}

/// What the counts of catalog objects count. An object that is not there counts as
/// missing, one that is there in another form as different, and one in the expected form
/// as matching; each counts once. The first two are noted with the object, as long as there
/// is room for details.
pub proof fn compared_objects_are_counted(
    r: ReportModel,
    max_details: usize,
    kind: CatalogObjectKind,
    id: u128,
    there: bool,
    same: bool,
)
    requires
        r.missing_catalog_objects < usize::MAX,
        r.different_catalog_objects < usize::MAX,
        r.matching_catalog_objects < usize::MAX,
        r.mismatch_groups < usize::MAX,
    ensures
        ({
            let after = after_verdict(r, max_details, kind, id, verdict_of(there, same));
            let details = r.mismatch_details;
            &&& after.missing_catalog_objects == r.missing_catalog_objects + if there {
                0int
            } else {
                1
            }
            &&& after.different_catalog_objects == r.different_catalog_objects + if there && !same {
                1int
            } else {
                0
            }
            &&& after.matching_catalog_objects == r.matching_catalog_objects + if there && same {
                1int
            } else {
                0
            }
            &&& there && same ==> after.mismatch_groups == r.mismatch_groups
                && after.mismatch_details == details
            &&& !(there && same) ==> after.mismatch_groups == r.mismatch_groups + 1
            &&& !(there && same) && details.len() >= max_details ==> after.mismatch_details
                == details
            &&& !there && details.len() < max_details ==> after.mismatch_details == details.push(
                ShadowReconcileDetail::Catalog { kind, id, mismatch: CatalogMismatch::Missing },
            )
            &&& there && !same && details.len() < max_details ==> after.mismatch_details
                == details.push(
                ShadowReconcileDetail::Catalog { kind, id, mismatch: CatalogMismatch::Different },
            )
        }),
{
}

/// What is noted of a receipt: one that is missing, with its identity, and nothing of one
/// that is as expected.
pub proof fn receipts_are_noted(
    r: ReportModel,
    max_details: usize,
    b: BatchModel,
    found: Option<StoredReceipt>,
)
    requires
        r.mismatch_groups < usize::MAX,
    ensures
        ({
            let after = after_receipt(r, max_details, b, found);
            let identity = IngressIdentity {
                source_id: b.source_id,
                sequence: b.sequence,
                commit_id: b.commit_id,
            };
            &&& found is None ==> after.mismatch_groups == r.mismatch_groups + 1
            &&& found is None && r.mismatch_details.len() < max_details ==> after.mismatch_details
                == r.mismatch_details.push(ShadowReconcileDetail::MissingReceipt { identity })
            &&& found matches Some(receipt) ==> (receipt.commit_id == b.commit_id && receipt.records
                == wanted_records(b) && receipt.points == b.points.len() && receipt.payload_matches
                ==> after.mismatch_groups == r.mismatch_groups && after.mismatch_details
                == r.mismatch_details)
            &&& found matches Some(receipt) ==> (receipt.commit_id != b.commit_id
                || receipt.records != wanted_records(b) || receipt.points != b.points.len()
                || !receipt.payload_matches ==> after.mismatch_groups > r.mismatch_groups)
        }),
{
}

} // verus!
