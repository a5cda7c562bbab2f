//! What a window of batches expects of the store, and what counts as the same.
#[allow(unused_imports)]
use crate::counting::sum_of;
#[allow(unused_imports)]
use crate::model::{
    finite, same_number, EntityModel, FloatBits, PlanModel, Point, PropertiesModel, RelationModel,
    RunModel, SeriesModel,
};
#[allow(unused_imports)]
use crate::point_keys::{counted, PointCounts};
#[allow(unused_imports)]
use crate::sameness::{
    same_entity, same_plan, same_properties, same_property, same_relation, same_run,
};
#[allow(unused_imports)]
use crate::shadow_protocol::BatchModel;
#[allow(unused_imports)]
use crate::shadow_reconcile::{
    after_groups, counts_points, first_endless, last_entities, last_plans, last_relations,
    last_runs, last_series, preflight, put_entities, put_plans, put_relations, put_runs, put_series,
    spans_of, window_check, PointWindow, ReportModel, ShadowReconcileLimits,
};
use vstd::prelude::*;

verus! {

/// What is in a map stays in it, and what a list has is put into it.
proof fn lemma_put_entities(m: Map<u128, EntityModel>, list: Seq<EntityModel>, id: u128)
    ensures
        put_entities(m, list).contains_key(id) <==> m.contains_key(id) || exists|i: int|
            0 <= i < list.len() && (#[trigger] list[i]).id.0 == id,
    decreases list.len(),
{
    if list.len() > 0 {
        let front = list.drop_last();
        lemma_put_entities(m, front, id);
        let last = list[list.len() - 1];
        assert(last == list.last());
        if exists|i: int| 0 <= i < front.len() && (#[trigger] front[i]).id.0 == id {
            let i = choose|i: int| 0 <= i < front.len() && (#[trigger] front[i]).id.0 == id;
            assert(list[i].id.0 == id);
        }
        if exists|i: int| 0 <= i < list.len() && (#[trigger] list[i]).id.0 == id {
            let i = choose|i: int| 0 <= i < list.len() && (#[trigger] list[i]).id.0 == id;
            if i < front.len() {
                assert(front[i].id.0 == id);
            }
        }
    }
}

/// What stands in a map stays where a list does not have it.
proof fn lemma_left_entities(m: Map<u128, EntityModel>, list: Seq<EntityModel>, id: u128)
    requires
        forall|i: int| 0 <= i < list.len() ==> (#[trigger] list[i]).id.0 != id,
    ensures
        put_entities(m, list)[id] == m[id],
    decreases list.len(),
{
    if list.len() > 0 {
        let front = list.drop_last();
        assert(list[list.len() - 1].id.0 != id);
        assert forall|i: int| 0 <= i < front.len() implies (#[trigger] front[i]).id.0 != id by {
            assert(list[i].id.0 != id);
        }
        lemma_left_entities(m, front, id);
    }
}

/// Of a list the last one with an identifier is put into a map.
proof fn lemma_last_entities(m: Map<u128, EntityModel>, list: Seq<EntityModel>, i: int)
    requires
        0 <= i < list.len(),
        forall|j: int| i < j < list.len() ==> (#[trigger] list[j]).id.0 != list[i].id.0,
    ensures
        put_entities(m, list)[list[i].id.0] == list[i],
    decreases list.len(),
{
    let front = list.drop_last();
    if i < front.len() {
        assert(list[list.len() - 1].id.0 != list[i].id.0);
        assert(front[i] == list[i]);
        assert forall|j: int| i < j < front.len()
            implies (#[trigger] front[j]).id.0 != front[i].id.0 by {
            assert(list[j].id.0 != list[i].id.0);
        }
        lemma_last_entities(m, front, i);
    }
}

/// The entity that a window expects under an identifier is the one that was supplied last:
/// by the last batch that has one, and in that batch the last.
pub proof fn last_entities_are_expected(batches: Seq<BatchModel>, b: int, i: int)
    requires
        0 <= b < batches.len(),
        0 <= i < batches[b].entities.len(),
        forall|j: int|
            i < j < batches[b].entities.len() ==> (#[trigger] batches[b].entities[j]).id.0
                != batches[b].entities[i].id.0,
        forall|d: int, j: int|
            b < d < batches.len() && 0 <= j < batches[d].entities.len()
                ==> (#[trigger] batches[d].entities[j]).id.0 != batches[b].entities[i].id.0,
    ensures
        last_entities(batches).contains_key(batches[b].entities[i].id.0),
        last_entities(batches)[batches[b].entities[i].id.0] == batches[b].entities[i],
    decreases batches.len(),
{
    let front = batches.drop_last();
    let last = batches[batches.len() - 1];
    let wanted = batches[b].entities[i];
    let id = wanted.id.0;
    assert(last == batches.last());
    lemma_put_entities(last_entities(front), last.entities, id);
    if b < front.len() {
        assert(front[b] == batches[b]);
        assert forall|j: int| i < j < front[b].entities.len()
            implies (#[trigger] front[b].entities[j]).id.0
            != front[b].entities[i].id.0 by {
            assert(batches[b].entities[j].id.0 != id);
        }
        assert forall|d: int, j: int|
            b < d < front.len() && 0 <= j < front[d].entities.len()
                implies (#[trigger] front[d].entities[j]).id.0 != front[b].entities[i].id.0 by {
            assert(batches[d].entities[j].id.0 != id);
        }
        last_entities_are_expected(front, b, i);
        assert forall|j: int| 0 <= j < last.entities.len() implies (#[trigger] last.entities[j]).id.0
            != id by {
            assert(batches[batches.len() - 1].entities[j].id.0 != id);
        }
        lemma_left_entities(last_entities(front), last.entities, id);
    } else {
        assert(last.entities[i].id.0 == id);
        assert forall|j: int| i < j < last.entities.len() implies (#[trigger] last.entities[j]).id.0
            != last.entities[i].id.0 by {
            assert(batches[b].entities[j].id.0 != id);
        }
        lemma_last_entities(last_entities(front), last.entities, i);
    }
}

/// A window expects no entity that none of its batches has.
pub proof fn no_other_entities_are_expected(batches: Seq<BatchModel>, id: u128)
    requires
        last_entities(batches).contains_key(id),
    ensures
        exists|b: int, i: int|
            0 <= b < batches.len() && 0 <= i < batches[b].entities.len()
                && (#[trigger] batches[b].entities[i]).id.0 == id,
    decreases batches.len(),
{
    if batches.len() > 0 {
        let front = batches.drop_last();
        let last = batches[batches.len() - 1];
        assert(last == batches.last());
        lemma_put_entities(last_entities(front), last.entities, id);
        if last_entities(front).contains_key(id) {
            no_other_entities_are_expected(front, id);
            let (b, i) = choose|b: int, i: int|
                0 <= b < front.len() && 0 <= i < front[b].entities.len()
                    && (#[trigger] front[b].entities[i]).id.0 == id;
            assert(batches[b].entities[i].id.0 == id);
        } else {
            let i = choose|i: int| 0 <= i < last.entities.len() && (#[trigger] last.entities[i]).id.0 == id;
            assert(batches[batches.len() - 1].entities[i].id.0 == id);
        }
    }
}

/// What is in a map stays in it, and what a list has is put into it.
proof fn lemma_put_relations(m: Map<u128, RelationModel>, list: Seq<RelationModel>, id: u128)
    ensures
        put_relations(m, list).contains_key(id) <==> m.contains_key(id) || exists|i: int|
            0 <= i < list.len() && (#[trigger] list[i]).id.0 == id,
    decreases list.len(),
{
    if list.len() > 0 {
        let front = list.drop_last();
        lemma_put_relations(m, front, id);
        let last = list[list.len() - 1];
        assert(last == list.last());
        if exists|i: int| 0 <= i < front.len() && (#[trigger] front[i]).id.0 == id {
            let i = choose|i: int| 0 <= i < front.len() && (#[trigger] front[i]).id.0 == id;
            assert(list[i].id.0 == id);
        }
        if exists|i: int| 0 <= i < list.len() && (#[trigger] list[i]).id.0 == id {
            let i = choose|i: int| 0 <= i < list.len() && (#[trigger] list[i]).id.0 == id;
            if i < front.len() {
                assert(front[i].id.0 == id);
            }
        }
    }
}

/// What stands in a map stays where a list does not have it.
proof fn lemma_left_relations(m: Map<u128, RelationModel>, list: Seq<RelationModel>, id: u128)
    requires
        forall|i: int| 0 <= i < list.len() ==> (#[trigger] list[i]).id.0 != id,
    ensures
        put_relations(m, list)[id] == m[id],
    decreases list.len(),
{
    if list.len() > 0 {
        let front = list.drop_last();
        assert(list[list.len() - 1].id.0 != id);
        assert forall|i: int| 0 <= i < front.len() implies (#[trigger] front[i]).id.0 != id by {
            assert(list[i].id.0 != id);
        }
        lemma_left_relations(m, front, id);
    }
}

/// Of a list the last one with an identifier is put into a map.
proof fn lemma_last_relations(m: Map<u128, RelationModel>, list: Seq<RelationModel>, i: int)
    requires
        0 <= i < list.len(),
        forall|j: int| i < j < list.len() ==> (#[trigger] list[j]).id.0 != list[i].id.0,
    ensures
        put_relations(m, list)[list[i].id.0] == list[i],
    decreases list.len(),
{
    let front = list.drop_last();
    if i < front.len() {
        assert(list[list.len() - 1].id.0 != list[i].id.0);
        assert(front[i] == list[i]);
        assert forall|j: int| i < j < front.len()
            implies (#[trigger] front[j]).id.0 != front[i].id.0 by {
            assert(list[j].id.0 != list[i].id.0);
        }
        lemma_last_relations(m, front, i);
    }
}

/// The relation that a window expects under an identifier is the one that was supplied last:
/// by the last batch that has one, and in that batch the last.
pub proof fn last_relations_are_expected(batches: Seq<BatchModel>, b: int, i: int)
    requires
        0 <= b < batches.len(),
        0 <= i < batches[b].relations.len(),
        forall|j: int|
            i < j < batches[b].relations.len() ==> (#[trigger] batches[b].relations[j]).id.0
                != batches[b].relations[i].id.0,
        forall|d: int, j: int|
            b < d < batches.len() && 0 <= j < batches[d].relations.len()
                ==> (#[trigger] batches[d].relations[j]).id.0 != batches[b].relations[i].id.0,
    ensures
        last_relations(batches).contains_key(batches[b].relations[i].id.0),
        last_relations(batches)[batches[b].relations[i].id.0] == batches[b].relations[i],
    decreases batches.len(),
{
    let front = batches.drop_last();
    let last = batches[batches.len() - 1];
    let wanted = batches[b].relations[i];
    let id = wanted.id.0;
    assert(last == batches.last());
    lemma_put_relations(last_relations(front), last.relations, id);
    if b < front.len() {
        assert(front[b] == batches[b]);
        assert forall|j: int| i < j < front[b].relations.len()
            implies (#[trigger] front[b].relations[j]).id.0
            != front[b].relations[i].id.0 by {
            assert(batches[b].relations[j].id.0 != id);
        }
        assert forall|d: int, j: int|
            b < d < front.len() && 0 <= j < front[d].relations.len()
                implies (#[trigger] front[d].relations[j]).id.0 != front[b].relations[i].id.0 by {
            assert(batches[d].relations[j].id.0 != id);
        }
        last_relations_are_expected(front, b, i);
        assert forall|j: int| 0 <= j < last.relations.len() implies (#[trigger] last.relations[j]).id.0
            != id by {
            assert(batches[batches.len() - 1].relations[j].id.0 != id);
        }
        lemma_left_relations(last_relations(front), last.relations, id);
    } else {
        assert(last.relations[i].id.0 == id);
        assert forall|j: int| i < j < last.relations.len() implies (#[trigger] last.relations[j]).id.0
            != last.relations[i].id.0 by {
            assert(batches[b].relations[j].id.0 != id);
        }
        lemma_last_relations(last_relations(front), last.relations, i);
    }
}

/// A window expects no relation that none of its batches has.
pub proof fn no_other_relations_are_expected(batches: Seq<BatchModel>, id: u128)
    requires
        last_relations(batches).contains_key(id),
    ensures
        exists|b: int, i: int|
            0 <= b < batches.len() && 0 <= i < batches[b].relations.len()
                && (#[trigger] batches[b].relations[i]).id.0 == id,
    decreases batches.len(),
{
    if batches.len() > 0 {
        let front = batches.drop_last();
        let last = batches[batches.len() - 1];
        assert(last == batches.last());
        lemma_put_relations(last_relations(front), last.relations, id);
        if last_relations(front).contains_key(id) {
            no_other_relations_are_expected(front, id);
            let (b, i) = choose|b: int, i: int|
                0 <= b < front.len() && 0 <= i < front[b].relations.len()
                    && (#[trigger] front[b].relations[i]).id.0 == id;
            assert(batches[b].relations[i].id.0 == id);
        } else {
            let i = choose|i: int| 0 <= i < last.relations.len() && (#[trigger] last.relations[i]).id.0 == id;
            assert(batches[batches.len() - 1].relations[i].id.0 == id);
        }
    }
}

/// What is in a map stays in it, and what a list has is put into it.
proof fn lemma_put_series(m: Map<u128, SeriesModel>, list: Seq<SeriesModel>, id: u128)
    ensures
        put_series(m, list).contains_key(id) <==> m.contains_key(id) || exists|i: int|
            0 <= i < list.len() && ((#[trigger] list[i]).id as u128) == id,
    decreases list.len(),
{
    if list.len() > 0 {
        let front = list.drop_last();
        lemma_put_series(m, front, id);
        let last = list[list.len() - 1];
        assert(last == list.last());
        if exists|i: int| 0 <= i < front.len() && ((#[trigger] front[i]).id as u128) == id {
            let i = choose|i: int| 0 <= i < front.len() && ((#[trigger] front[i]).id as u128) == id;
            assert((list[i].id as u128) == id);
        }
        if exists|i: int| 0 <= i < list.len() && ((#[trigger] list[i]).id as u128) == id {
            let i = choose|i: int| 0 <= i < list.len() && ((#[trigger] list[i]).id as u128) == id;
            if i < front.len() {
                assert((front[i].id as u128) == id);
            }
        }
    }
}

/// What stands in a map stays where a list does not have it.
proof fn lemma_left_series(m: Map<u128, SeriesModel>, list: Seq<SeriesModel>, id: u128)
    requires
        forall|i: int| 0 <= i < list.len() ==> ((#[trigger] list[i]).id as u128) != id,
    ensures
        put_series(m, list)[id] == m[id],
    decreases list.len(),
{
    if list.len() > 0 {
        let front = list.drop_last();
        assert((list[list.len() - 1].id as u128) != id);
        assert forall|i: int| 0 <= i < front.len() implies ((#[trigger] front[i]).id as u128) != id by {
            assert((list[i].id as u128) != id);
        }
        lemma_left_series(m, front, id);
    }
}

/// Of a list the last one with an identifier is put into a map.
proof fn lemma_last_series(m: Map<u128, SeriesModel>, list: Seq<SeriesModel>, i: int)
    requires
        0 <= i < list.len(),
        forall|j: int| i < j < list.len() ==> ((#[trigger] list[j]).id as u128) != (list[i].id as u128),
    ensures
        put_series(m, list)[(list[i].id as u128)] == list[i],
    decreases list.len(),
{
    let front = list.drop_last();
    if i < front.len() {
        assert((list[list.len() - 1].id as u128) != (list[i].id as u128));
        assert(front[i] == list[i]);
        assert forall|j: int| i < j < front.len()
            implies ((#[trigger] front[j]).id as u128) != (front[i].id as u128) by {
            assert((list[j].id as u128) != (list[i].id as u128));
        }
        lemma_last_series(m, front, i);
    }
}

/// The series that a window expects under an identifier is the one that was supplied last:
/// by the last batch that has one, and in that batch the last.
pub proof fn last_series_are_expected(batches: Seq<BatchModel>, b: int, i: int)
    requires
        0 <= b < batches.len(),
        0 <= i < batches[b].series.len(),
        forall|j: int|
            i < j < batches[b].series.len() ==> ((#[trigger] batches[b].series[j]).id as u128)
                != (batches[b].series[i].id as u128),
        forall|d: int, j: int|
            b < d < batches.len() && 0 <= j < batches[d].series.len()
                ==> ((#[trigger] batches[d].series[j]).id as u128) != (batches[b].series[i].id as u128),
    ensures
        last_series(batches).contains_key((batches[b].series[i].id as u128)),
        last_series(batches)[(batches[b].series[i].id as u128)] == batches[b].series[i],
    decreases batches.len(),
{
    let front = batches.drop_last();
    let last = batches[batches.len() - 1];
    let wanted = batches[b].series[i];
    let id = (wanted.id as u128);
    assert(last == batches.last());
    lemma_put_series(last_series(front), last.series, id);
    if b < front.len() {
        assert(front[b] == batches[b]);
        assert forall|j: int| i < j < front[b].series.len()
            implies ((#[trigger] front[b].series[j]).id as u128)
            != (front[b].series[i].id as u128) by {
            assert((batches[b].series[j].id as u128) != id);
        }
        assert forall|d: int, j: int|
            b < d < front.len() && 0 <= j < front[d].series.len()
                implies ((#[trigger] front[d].series[j]).id as u128) != (front[b].series[i].id as u128) by {
            assert((batches[d].series[j].id as u128) != id);
        }
        last_series_are_expected(front, b, i);
        assert forall|j: int| 0 <= j < last.series.len()
            implies ((#[trigger] last.series[j]).id as u128)
            != id by {
            assert((batches[batches.len() - 1].series[j].id as u128) != id);
        }
        lemma_left_series(last_series(front), last.series, id);
    } else {
        assert((last.series[i].id as u128) == id);
        assert forall|j: int| i < j < last.series.len() implies ((#[trigger] last.series[j]).id as u128)
            != (last.series[i].id as u128) by {
            assert((batches[b].series[j].id as u128) != id);
        }
        lemma_last_series(last_series(front), last.series, i);
    }
}

/// A window expects no series that none of its batches has.
pub proof fn no_other_series_are_expected(batches: Seq<BatchModel>, id: u128)
    requires
        last_series(batches).contains_key(id),
    ensures
        exists|b: int, i: int|
            0 <= b < batches.len() && 0 <= i < batches[b].series.len()
                && ((#[trigger] batches[b].series[i]).id as u128) == id,
    decreases batches.len(),
{
    if batches.len() > 0 {
        let front = batches.drop_last();
        let last = batches[batches.len() - 1];
        assert(last == batches.last());
        lemma_put_series(last_series(front), last.series, id);
        if last_series(front).contains_key(id) {
            no_other_series_are_expected(front, id);
            let (b, i) = choose|b: int, i: int|
                0 <= b < front.len() && 0 <= i < front[b].series.len()
                    && ((#[trigger] front[b].series[i]).id as u128) == id;
            assert((batches[b].series[i].id as u128) == id);
        } else {
            let i = choose|i: int| 0 <= i < last.series.len() && ((#[trigger] last.series[i]).id as u128) == id;
            assert((batches[batches.len() - 1].series[i].id as u128) == id);
        }
    }
}

/// What is in a map stays in it, and what a list has is put into it.
proof fn lemma_put_runs(m: Map<u128, RunModel>, list: Seq<RunModel>, id: u128)
    ensures
        put_runs(m, list).contains_key(id) <==> m.contains_key(id) || exists|i: int|
            0 <= i < list.len() && (#[trigger] list[i]).id.0 == id,
    decreases list.len(),
{
    if list.len() > 0 {
        let front = list.drop_last();
        lemma_put_runs(m, front, id);
        let last = list[list.len() - 1];
        assert(last == list.last());
        if exists|i: int| 0 <= i < front.len() && (#[trigger] front[i]).id.0 == id {
            let i = choose|i: int| 0 <= i < front.len() && (#[trigger] front[i]).id.0 == id;
            assert(list[i].id.0 == id);
        }
        if exists|i: int| 0 <= i < list.len() && (#[trigger] list[i]).id.0 == id {
            let i = choose|i: int| 0 <= i < list.len() && (#[trigger] list[i]).id.0 == id;
            if i < front.len() {
                assert(front[i].id.0 == id);
            }
        }
    }
}

/// What stands in a map stays where a list does not have it.
proof fn lemma_left_runs(m: Map<u128, RunModel>, list: Seq<RunModel>, id: u128)
    requires
        forall|i: int| 0 <= i < list.len() ==> (#[trigger] list[i]).id.0 != id,
    ensures
        put_runs(m, list)[id] == m[id],
    decreases list.len(),
{
    if list.len() > 0 {
        let front = list.drop_last();
        assert(list[list.len() - 1].id.0 != id);
        assert forall|i: int| 0 <= i < front.len() implies (#[trigger] front[i]).id.0 != id by {
            assert(list[i].id.0 != id);
        }
        lemma_left_runs(m, front, id);
    }
}

/// Of a list the last one with an identifier is put into a map.
proof fn lemma_last_runs(m: Map<u128, RunModel>, list: Seq<RunModel>, i: int)
    requires
        0 <= i < list.len(),
        forall|j: int| i < j < list.len() ==> (#[trigger] list[j]).id.0 != list[i].id.0,
    ensures
        put_runs(m, list)[list[i].id.0] == list[i],
    decreases list.len(),
{
    let front = list.drop_last();
    if i < front.len() {
        assert(list[list.len() - 1].id.0 != list[i].id.0);
        assert(front[i] == list[i]);
        assert forall|j: int| i < j < front.len()
            implies (#[trigger] front[j]).id.0 != front[i].id.0 by {
            assert(list[j].id.0 != list[i].id.0);
        }
        lemma_last_runs(m, front, i);
    }
}

/// The run that a window expects under an identifier is the one that was supplied last:
/// by the last batch that has one, and in that batch the last.
pub proof fn last_runs_are_expected(batches: Seq<BatchModel>, b: int, i: int)
    requires
        0 <= b < batches.len(),
        0 <= i < batches[b].runs.len(),
        forall|j: int|
            i < j < batches[b].runs.len() ==> (#[trigger] batches[b].runs[j]).id.0
                != batches[b].runs[i].id.0,
        forall|d: int, j: int|
            b < d < batches.len() && 0 <= j < batches[d].runs.len()
                ==> (#[trigger] batches[d].runs[j]).id.0 != batches[b].runs[i].id.0,
    ensures
        last_runs(batches).contains_key(batches[b].runs[i].id.0),
        last_runs(batches)[batches[b].runs[i].id.0] == batches[b].runs[i],
    decreases batches.len(),
{
    let front = batches.drop_last();
    let last = batches[batches.len() - 1];
    let wanted = batches[b].runs[i];
    let id = wanted.id.0;
    assert(last == batches.last());
    lemma_put_runs(last_runs(front), last.runs, id);
    if b < front.len() {
        assert(front[b] == batches[b]);
        assert forall|j: int| i < j < front[b].runs.len() implies (#[trigger] front[b].runs[j]).id.0
            != front[b].runs[i].id.0 by {
            assert(batches[b].runs[j].id.0 != id);
        }
        assert forall|d: int, j: int|
            b < d < front.len() && 0 <= j < front[d].runs.len()
                implies (#[trigger] front[d].runs[j]).id.0 != front[b].runs[i].id.0 by {
            assert(batches[d].runs[j].id.0 != id);
        }
        last_runs_are_expected(front, b, i);
        assert forall|j: int| 0 <= j < last.runs.len() implies (#[trigger] last.runs[j]).id.0
            != id by {
            assert(batches[batches.len() - 1].runs[j].id.0 != id);
        }
        lemma_left_runs(last_runs(front), last.runs, id);
    } else {
        assert(last.runs[i].id.0 == id);
        assert forall|j: int| i < j < last.runs.len() implies (#[trigger] last.runs[j]).id.0
            != last.runs[i].id.0 by {
            assert(batches[b].runs[j].id.0 != id);
        }
        lemma_last_runs(last_runs(front), last.runs, i);
    }
}

/// A window expects no run that none of its batches has.
pub proof fn no_other_runs_are_expected(batches: Seq<BatchModel>, id: u128)
    requires
        last_runs(batches).contains_key(id),
    ensures
        exists|b: int, i: int|
            0 <= b < batches.len() && 0 <= i < batches[b].runs.len()
                && (#[trigger] batches[b].runs[i]).id.0 == id,
    decreases batches.len(),
{
    if batches.len() > 0 {
        let front = batches.drop_last();
        let last = batches[batches.len() - 1];
        assert(last == batches.last());
        lemma_put_runs(last_runs(front), last.runs, id);
        if last_runs(front).contains_key(id) {
            no_other_runs_are_expected(front, id);
            let (b, i) = choose|b: int, i: int|
                0 <= b < front.len() && 0 <= i < front[b].runs.len()
                    && (#[trigger] front[b].runs[i]).id.0 == id;
            assert(batches[b].runs[i].id.0 == id);
        } else {
            let i = choose|i: int| 0 <= i < last.runs.len() && (#[trigger] last.runs[i]).id.0 == id;
            assert(batches[batches.len() - 1].runs[i].id.0 == id);
        }
    }
}

/// What is in a map stays in it, and what a list has is put into it.
proof fn lemma_put_plans(m: Map<u128, PlanModel>, list: Seq<PlanModel>, id: u128)
    ensures
        put_plans(m, list).contains_key(id) <==> m.contains_key(id) || exists|i: int|
            0 <= i < list.len() && (#[trigger] list[i]).id == id,
    decreases list.len(),
{
    if list.len() > 0 {
        let front = list.drop_last();
        lemma_put_plans(m, front, id);
        let last = list[list.len() - 1];
        assert(last == list.last());
        if exists|i: int| 0 <= i < front.len() && (#[trigger] front[i]).id == id {
            let i = choose|i: int| 0 <= i < front.len() && (#[trigger] front[i]).id == id;
            assert(list[i].id == id);
        }
        if exists|i: int| 0 <= i < list.len() && (#[trigger] list[i]).id == id {
            let i = choose|i: int| 0 <= i < list.len() && (#[trigger] list[i]).id == id;
            if i < front.len() {
                assert(front[i].id == id);
            }
        }
    }
}

/// What stands in a map stays where a list does not have it.
proof fn lemma_left_plans(m: Map<u128, PlanModel>, list: Seq<PlanModel>, id: u128)
    requires
        forall|i: int| 0 <= i < list.len() ==> (#[trigger] list[i]).id != id,
    ensures
        put_plans(m, list)[id] == m[id],
    decreases list.len(),
{
    if list.len() > 0 {
        let front = list.drop_last();
        assert(list[list.len() - 1].id != id);
        assert forall|i: int| 0 <= i < front.len() implies (#[trigger] front[i]).id != id by {
            assert(list[i].id != id);
        }
        lemma_left_plans(m, front, id);
    }
}

/// Of a list the last one with an identifier is put into a map.
proof fn lemma_last_plans(m: Map<u128, PlanModel>, list: Seq<PlanModel>, i: int)
    requires
        0 <= i < list.len(),
        forall|j: int| i < j < list.len() ==> (#[trigger] list[j]).id != list[i].id,
    ensures
        put_plans(m, list)[list[i].id] == list[i],
    decreases list.len(),
{
    let front = list.drop_last();
    if i < front.len() {
        assert(list[list.len() - 1].id != list[i].id);
        assert(front[i] == list[i]);
        assert forall|j: int| i < j < front.len() implies (#[trigger] front[j]).id != front[i].id by {
            assert(list[j].id != list[i].id);
        }
        lemma_last_plans(m, front, i);
    }
}

/// The plan that a window expects under an identifier is the one that was supplied last:
/// by the last batch that has one, and in that batch the last.
pub proof fn last_plans_are_expected(batches: Seq<BatchModel>, b: int, i: int)
    requires
        0 <= b < batches.len(),
        0 <= i < batches[b].plans.len(),
        forall|j: int|
            i < j < batches[b].plans.len() ==> (#[trigger] batches[b].plans[j]).id
                != batches[b].plans[i].id,
        forall|d: int, j: int|
            b < d < batches.len() && 0 <= j < batches[d].plans.len()
                ==> (#[trigger] batches[d].plans[j]).id != batches[b].plans[i].id,
    ensures
        last_plans(batches).contains_key(batches[b].plans[i].id),
        last_plans(batches)[batches[b].plans[i].id] == batches[b].plans[i],
    decreases batches.len(),
{
    let front = batches.drop_last();
    let last = batches[batches.len() - 1];
    let wanted = batches[b].plans[i];
    let id = wanted.id;
    assert(last == batches.last());
    lemma_put_plans(last_plans(front), last.plans, id);
    if b < front.len() {
        assert(front[b] == batches[b]);
        assert forall|j: int| i < j < front[b].plans.len() implies (#[trigger] front[b].plans[j]).id
            != front[b].plans[i].id by {
            assert(batches[b].plans[j].id != id);
        }
        assert forall|d: int, j: int|
            b < d < front.len() && 0 <= j < front[d].plans.len()
                implies (#[trigger] front[d].plans[j]).id != front[b].plans[i].id by {
            assert(batches[d].plans[j].id != id);
        }
        last_plans_are_expected(front, b, i);
        assert forall|j: int| 0 <= j < last.plans.len() implies (#[trigger] last.plans[j]).id
            != id by {
            assert(batches[batches.len() - 1].plans[j].id != id);
        }
        lemma_left_plans(last_plans(front), last.plans, id);
    } else {
        assert(last.plans[i].id == id);
        assert forall|j: int| i < j < last.plans.len() implies (#[trigger] last.plans[j]).id
            != last.plans[i].id by {
            assert(batches[b].plans[j].id != id);
        }
        lemma_last_plans(last_plans(front), last.plans, i);
    }
}

/// A window expects no plan that none of its batches has.
pub proof fn no_other_plans_are_expected(batches: Seq<BatchModel>, id: u128)
    requires
        last_plans(batches).contains_key(id),
    ensures
        exists|b: int, i: int|
            0 <= b < batches.len() && 0 <= i < batches[b].plans.len()
                && (#[trigger] batches[b].plans[i]).id == id,
    decreases batches.len(),
{
    if batches.len() > 0 {
        let front = batches.drop_last();
        let last = batches[batches.len() - 1];
        assert(last == batches.last());
        lemma_put_plans(last_plans(front), last.plans, id);
        if last_plans(front).contains_key(id) {
            no_other_plans_are_expected(front, id);
            let (b, i) = choose|b: int, i: int|
                0 <= b < front.len() && 0 <= i < front[b].plans.len()
                    && (#[trigger] front[b].plans[i]).id == id;
            assert(batches[b].plans[i].id == id);
        } else {
            let i = choose|i: int| 0 <= i < last.plans.len() && (#[trigger] last.plans[i]).id == id;
            assert(batches[batches.len() - 1].plans[i].id == id);
        }
    }
}

/// Two doubles are the same number exactly where neither is NaN, which has a full exponent
/// and a fraction, and their bits are equal or both are zeros, of which one may have the
/// sign bit.
pub proof fn numbers_are_compared_as_doubles(a: FloatBits, b: FloatBits)
    ensures
        same_number(a, b) <==> {
            &&& !((a.0 / 0x10_0000_0000_0000) % 0x800 == 0x7ff && a.0 % 0x10_0000_0000_0000 != 0)
            &&& !((b.0 / 0x10_0000_0000_0000) % 0x800 == 0x7ff && b.0 % 0x10_0000_0000_0000 != 0)
            &&& {
                ||| a.0 == b.0
                ||| (a.0 == 0 || a.0 == 0x8000_0000_0000_0000) && (b.0 == 0 || b.0
                    == 0x8000_0000_0000_0000)
            }
        },
        finite(a) ==> same_number(a, a),
{
    let x = a.0;
    let y = b.0;
    assert((x % 0x8000_0000_0000_0000 > 0x7ff0_0000_0000_0000) == ((x / 0x10_0000_0000_0000)
        % 0x800 == 0x7ff && x % 0x10_0000_0000_0000 != 0)) by (bit_vector);
    assert((y % 0x8000_0000_0000_0000 > 0x7ff0_0000_0000_0000) == ((y / 0x10_0000_0000_0000)
        % 0x800 == 0x7ff && y % 0x10_0000_0000_0000 != 0)) by (bit_vector);
    assert((x % 0x8000_0000_0000_0000 == 0) == (x == 0 || x == 0x8000_0000_0000_0000))
        by (bit_vector);
    assert((y % 0x8000_0000_0000_0000 == 0) == (y == 0 || y == 0x8000_0000_0000_0000))
        by (bit_vector);
}

/// Properties are the same where they have the same names, and under each a value of the
/// same kind that is equal, or for numbers the same number.
pub proof fn properties_are_compared_by_name(a: PropertiesModel, b: PropertiesModel)
    ensures
        same_properties(a, b) <==> a.len() == b.len() && forall|i: int|
            #![trigger a[i]]
            0 <= i < a.len() ==> a[i].0 == b[i].0 && if a[i].1 is Float && b[i].1 is Float {
                same_number(a[i].1->Float_0, b[i].1->Float_0)
            } else {
                a[i].1 == b[i].1
            },
{
    if same_properties(a, b) {
        assert forall|i: int| #![trigger a[i]] 0 <= i < a.len() implies a[i].0 == b[i].0
            && if a[i].1 is Float && b[i].1 is Float {
            same_number(a[i].1->Float_0, b[i].1->Float_0)
        } else {
            a[i].1 == b[i].1
        } by {
            assert(same_property(a[i].1, b[i].1));
        }
    }
}

/// Catalog objects are the same only where every field is.
pub proof fn objects_are_compared_in_full(
    e: (EntityModel, EntityModel),
    l: (RelationModel, RelationModel),
    r: (RunModel, RunModel),
    p: (PlanModel, PlanModel),
)
    ensures
        same_entity(e.0, e.1) <==> e.0.id == e.1.id && e.0.kind == e.1.kind && e.0.name == e.1.name
            && e.0.parent == e.1.parent && e.0.valid_from == e.1.valid_from && e.0.valid_to
            == e.1.valid_to && same_properties(e.0.properties, e.1.properties),
        same_relation(l.0, l.1) <==> l.0.id == l.1.id && l.0.kind == l.1.kind && l.0.source
            == l.1.source && l.0.target == l.1.target && l.0.valid_from == l.1.valid_from
            && l.0.valid_to == l.1.valid_to && same_properties(l.0.properties, l.1.properties),
        same_run(r.0, r.1) <==> r.0.id == r.1.id && r.0.kind == r.1.kind && r.0.status == r.1.status
            && r.0.created_at == r.1.created_at && r.0.knowledge_time == r.1.knowledge_time
            && r.0.workflow == r.1.workflow && r.0.model == r.1.model && r.0.model_version
            == r.1.model_version && r.0.parent_run == r.1.parent_run && r.0.input_snapshot
            == r.1.input_snapshot && same_properties(r.0.attributes, r.1.attributes),
        same_plan(p.0, p.1) <==> p.0.id == p.1.id && p.0.run_id == p.1.run_id && p.0.status
            == p.1.status && p.0.horizon_start == p.1.horizon_start && p.0.horizon_end
            == p.1.horizon_end && p.0.resolution_micros == p.1.resolution_micros && p.0.scenario
            == p.1.scenario && p.0.supersedes == p.1.supersedes && same_properties(
            p.0.attributes,
            p.1.attributes,
        ) && p.0.objective_terms.len() == p.1.objective_terms.len() && (forall|i: int|
            #![trigger p.0.objective_terms[i]]
            0 <= i < p.0.objective_terms.len() ==> p.0.objective_terms[i].0
                == p.1.objective_terms[i].0 && same_number(
                p.0.objective_terms[i].1,
                p.1.objective_terms[i].1,
            )) && (p.0.objective_value is Some <==> p.1.objective_value is Some) && (
        p.0.objective_value is Some && p.1.objective_value is Some ==> same_number(
            p.0.objective_value->Some_0,
            p.1.objective_value->Some_0,
        )),
{
}

/// How many catalog objects a batch has.
pub open spec fn objects_in(b: BatchModel) -> int {
    (b.entities.len() + b.relations.len() + b.series.len() + b.runs.len() + b.plans.len()) as int
}

/// How many catalog objects the first batches have.
pub open spec fn objects_sent(batches: Seq<BatchModel>, n: nat) -> int {
    sum_of(Seq::new(n, |i: int| objects_in(batches[i])))
}

/// How many points the first batches have.
pub open spec fn points_sent(batches: Seq<BatchModel>, n: nat) -> int {
    sum_of(Seq::new(n, |i: int| batches[i].points.len() as int))
}

proof fn lemma_sent(batches: Seq<BatchModel>, n: nat)
    ensures
        n > 0 ==> objects_sent(batches, n) == objects_sent(batches, (n - 1) as nat) + objects_in(
            batches[n - 1],
        ),
        n > 0 ==> points_sent(batches, n) == points_sent(batches, (n - 1) as nat) + batches[n
            - 1].points.len(),
        n == 0 ==> objects_sent(batches, n) == 0 && points_sent(batches, n) == 0,
{
    let objects = Seq::new(n, |i: int| objects_in(batches[i]));
    let points = Seq::new(n, |i: int| batches[i].points.len() as int);
    if n > 0 {
        let m = (n - 1) as nat;
        assert(objects.drop_last() =~= Seq::new(m, |i: int| objects_in(batches[i])));
        assert(points.drop_last() =~= Seq::new(m, |i: int| batches[i].points.len() as int));
    } else {
        assert(objects =~= Seq::<int>::empty());
        assert(points =~= Seq::<int>::empty());
    }
}

/// The first batches of a window that can be compared.
proof fn lemma_preflight(batches: Seq<BatchModel>, limits: ShadowReconcileLimits, n: nat)
    requires
        n <= batches.len(),
    ensures
        preflight(batches, limits, n) matches Ok((metadata, points)) ==> metadata == objects_sent(
            batches,
            n,
        ) && points == points_sent(batches, n),
        preflight(batches, limits, n) is Ok <==> {
            &&& forall|i: int| 0 <= i < n ==> (#[trigger] batches[i]).source_id != 0
            &&& forall|i: int, j: int|
                #![trigger batches[i], batches[j]]
                0 <= i < j < n ==> batches[i].commit_id != batches[j].commit_id && (
                batches[i].source_id != batches[j].source_id || batches[i].sequence
                    != batches[j].sequence)
            &&& objects_sent(batches, n) <= usize::MAX
            &&& points_sent(batches, n) <= usize::MAX
        },
    decreases n,
{
    lemma_sent(batches, n);
    if n > 0 {
        let m = (n - 1) as nat;
        lemma_preflight(batches, limits, m);
        let b = batches[n - 1];
        if preflight(batches, limits, n) is Ok {
            assert forall|i: int, j: int|
                #![trigger batches[i], batches[j]]
                0 <= i < j < n implies batches[i].commit_id != batches[j].commit_id && (
            batches[i].source_id != batches[j].source_id || batches[i].sequence
                != batches[j].sequence) by {
                if j == n - 1 {
                    assert(batches[i].commit_id != b.commit_id);
                }
            }
        }
    }
}

/// A window can be compared exactly where it has no more batches, catalog objects and
/// points than the limits allow, every batch has a source, and no two have one commit, or
/// one source and sequence. It then expects all points of its batches.
pub proof fn windows_are_compared_within_limits(
    batches: Seq<BatchModel>,
    limits: ShadowReconcileLimits,
)
    ensures
        window_check(batches, limits) is Ok <==> {
            &&& batches.len() <= limits.max_batches
            &&& forall|i: int| 0 <= i < batches.len() ==> (#[trigger] batches[i]).source_id != 0
            &&& forall|i: int, j: int|
                #![trigger batches[i], batches[j]]
                0 <= i < j < batches.len() ==> batches[i].commit_id != batches[j].commit_id && (
                batches[i].source_id != batches[j].source_id || batches[i].sequence
                    != batches[j].sequence)
            &&& objects_sent(batches, batches.len()) <= limits.max_metadata_records
            &&& points_sent(batches, batches.len()) <= limits.max_expected_points
        },
        window_check(batches, limits) matches Ok(n) ==> n == points_sent(batches, batches.len()),
{
    lemma_preflight(batches, limits, batches.len());
}

/// The span of a series begins with its first point in time, and ends just behind its
/// last: it is no longer than its points need. A series without points has none.
pub proof fn spans_are_tight(points: Seq<Point>, s: u64)
    requires
        first_endless(points) is None,
    ensures
        spans_of(points).contains_key(s) <==> exists|i: int|
            0 <= i < points.len() && (#[trigger] points[i]).series_id == s,
        spans_of(points).contains_key(s) ==> exists|i: int|
            0 <= i < points.len() && (#[trigger] points[i]).series_id == s && points[i].valid_time
                == spans_of(points)[s].start,
        spans_of(points).contains_key(s) ==> exists|i: int|
            0 <= i < points.len() && (#[trigger] points[i]).series_id == s && points[i].valid_time
                + 1 == spans_of(points)[s].end,
    decreases points.len(),
{
    if points.len() > 0 {
        let front = points.drop_last();
        spans_are_tight(front, s);
        let p = points.last();
        assert(points[points.len() - 1] == p);
        assert forall|i: int| 0 <= i < front.len() implies front[i] == #[trigger] points[i] by {}
        let before = spans_of(front);
        let after = spans_of(points);
        if before.contains_key(s) {
            let i = choose|i: int|
                0 <= i < front.len() && (#[trigger] front[i]).series_id == s
                    && front[i].valid_time == before[s].start;
            let j = choose|j: int|
                0 <= j < front.len() && (#[trigger] front[j]).series_id == s
                    && front[j].valid_time + 1 == before[s].end;
            assert(points[i].series_id == s);
            assert(points[j].series_id == s);
        }
        if p.series_id == s {
            assert(points[points.len() - 1].series_id == s);
        } else if exists|i: int| 0 <= i < points.len() && (#[trigger] points[i]).series_id == s {
            let i = choose|i: int| 0 <= i < points.len() && (#[trigger] points[i]).series_id == s;
            assert(front[i].series_id == s);
        }
    }
}

/// A point without an exclusive end of its time stops a window, and nothing else does: the
/// first such point is named by its series.
pub proof fn endless_points_are_named(points: Seq<Point>)
    ensures
        first_endless(points) is None <==> forall|i: int|
            0 <= i < points.len() ==> (#[trigger] points[i]).valid_time != i64::MAX,
        first_endless(points) matches Some(series) ==> exists|i: int|
            0 <= i < points.len() && (#[trigger] points[i]).valid_time == i64::MAX
                && points[i].series_id == series && forall|j: int|
                0 <= j < i ==> (#[trigger] points[j]).valid_time != i64::MAX,
    decreases points.len(),
{
    if points.len() > 0 {
        let front = points.drop_last();
        endless_points_are_named(front);
        assert(points[points.len() - 1] == points.last());
        assert forall|i: int| 0 <= i < front.len() implies front[i] == #[trigger] points[i] by {}
        if let Some(series) = first_endless(front) {
            let i = choose|i: int|
                0 <= i < front.len() && (#[trigger] front[i]).valid_time == i64::MAX
                    && front[i].series_id == series && forall|j: int|
                    0 <= j < i ==> (#[trigger] front[j]).valid_time != i64::MAX;
            assert(points[i].valid_time == i64::MAX);
            assert forall|j: int| 0 <= j < i implies (#[trigger] points[j]).valid_time
                != i64::MAX by {
                assert(front[j].valid_time != i64::MAX);
            }
        } else {
            assert forall|j: int| 0 <= j < front.len() implies (#[trigger] points[j]).valid_time
                != i64::MAX by {
                assert(front[j].valid_time != i64::MAX);
            }
        }
    }
}

/// The points of some groups, counted.
proof fn lemma_groups_counted(r: ReportModel, max: usize, groups: Seq<PointCounts>, n: nat)
    requires
        n <= groups.len(),
        r.matching_points == 0,
        r.missing_points == 0,
        r.unexpected_points == 0,
    ensures
        ({
            let after = after_groups(r, max, groups.take(n as int));
            let missing = sum_of(
                Seq::new(
                    n,
                    |i: int|
                        if groups[i].expected > groups[i].actual {
                            groups[i].expected - groups[i].actual
                        } else {
                            0
                        },
                ),
            );
            let unexpected = sum_of(
                Seq::new(
                    n,
                    |i: int|
                        if groups[i].actual > groups[i].expected {
                            groups[i].actual - groups[i].expected
                        } else {
                            0
                        },
                ),
            );
            let matching = sum_of(
                Seq::new(
                    n,
                    |i: int|
                        if groups[i].actual > groups[i].expected {
                            groups[i].expected as int
                        } else {
                            groups[i].actual as int
                        },
                ),
            );
            &&& missing >= 0 && unexpected >= 0 && matching >= 0
            &&& after.missing_points == if missing > usize::MAX {
                usize::MAX as int
            } else {
                missing
            }
            &&& after.unexpected_points == if unexpected > usize::MAX {
                usize::MAX as int
            } else {
                unexpected
            }
            &&& after.matching_points == if matching > usize::MAX {
                usize::MAX as int
            } else {
                matching
            }
        }),
    decreases n,
{
    let f1 = |k: nat|
        Seq::new(
            k,
            |i: int|
                if groups[i].expected > groups[i].actual {
                    groups[i].expected - groups[i].actual
                } else {
                    0
                },
        );
    let f2 = |k: nat|
        Seq::new(
            k,
            |i: int|
                if groups[i].actual > groups[i].expected {
                    groups[i].actual - groups[i].expected
                } else {
                    0
                },
        );
    let f3 = |k: nat|
        Seq::new(
            k,
            |i: int|
                if groups[i].actual > groups[i].expected {
                    groups[i].expected as int
                } else {
                    groups[i].actual as int
                },
        );
    if n == 0 {
        assert(groups.take(0) =~= Seq::<PointCounts>::empty());
        assert(f1(0) =~= Seq::<int>::empty());
        assert(f2(0) =~= Seq::<int>::empty());
        assert(f3(0) =~= Seq::<int>::empty());
    } else {
        let m = (n - 1) as nat;
        lemma_groups_counted(r, max, groups, m);
        assert(groups.take(n as int).drop_last() =~= groups.take(m as int));
        assert(groups.take(n as int).last() == groups[m as int]);
        assert(f1(n).drop_last() =~= f1(m));
        assert(f2(n).drop_last() =~= f2(m));
        assert(f3(n).drop_last() =~= f3(m));
    }
}

/// What the counts of points have counted, where they can hold it: of each identity what
/// was expected and not seen, what was seen and not expected, and what is common to both.
pub proof fn points_are_counted(
    result: ReportModel,
    r: ReportModel,
    max: usize,
    window: PointWindow,
    groups: Seq<PointCounts>,
)
    requires
        counts_points(result, r, max, window),
        counted(groups, window.expected(), window.observed()),
        r.matching_points == 0,
        r.missing_points == 0,
        r.unexpected_points == 0,
    ensures
        ({
            let missing = sum_of(
                Seq::new(
                    groups.len(),
                    |i: int|
                        if groups[i].expected > groups[i].actual {
                            groups[i].expected - groups[i].actual
                        } else {
                            0
                        },
                ),
            );
            let unexpected = sum_of(
                Seq::new(
                    groups.len(),
                    |i: int|
                        if groups[i].actual > groups[i].expected {
                            groups[i].actual - groups[i].expected
                        } else {
                            0
                        },
                ),
            );
            let matching = sum_of(
                Seq::new(
                    groups.len(),
                    |i: int|
                        if groups[i].actual > groups[i].expected {
                            groups[i].expected as int
                        } else {
                            groups[i].actual as int
                        },
                ),
            );
            &&& missing <= usize::MAX ==> result.missing_points == missing
            &&& unexpected <= usize::MAX ==> result.unexpected_points == unexpected
            &&& matching <= usize::MAX ==> result.matching_points == matching
        }),
{
    let start = ReportModel {
        scanned_points: window.scanned(),
        observed_points: window.observed().len() as usize,
        ..r
    };
    let other = choose|other: Seq<PointCounts>| #[trigger]
        counted(other, window.expected(), window.observed()) && result == after_groups(
            start,
            max,
            other,
        );
    crate::point_keys::counts_are_unique(
        groups,
        other,
        window.expected(),
        window.observed(),
        groups.len() as int,
    );
    crate::point_keys::counts_are_unique(
        other,
        groups,
        window.expected(),
        window.observed(),
        other.len() as int,
    );
    assert(groups.take(groups.len() as int) =~= groups);
    assert(other.take(other.len() as int) =~= other);
    lemma_groups_counted(start, max, groups, groups.len());
}

} // verus!
