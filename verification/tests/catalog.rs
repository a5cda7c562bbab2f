use ftwdb::catalog::{validate_entity, validate_point_intervals, validate_run, Catalog};
use ftwdb::dependencies::{find_cycle, first_repeat, snapshot_order};
use ftwdb::error::Error;
use ftwdb::model::{
    Entity, EntityId, FloatBits, Plan, PlanStatus, Point, PropertyValue, Relation, RelationId,
    RollupPolicy, RollupResolution, RollupTier, Run, RunId, RunKind, RunStatus, SeriesDefinition,
    SeriesSemantics,
};
use ftwdb::text_map::TextMap;
use ftwdb::transaction::{Record, Transaction};
use std::collections::BTreeMap;

fn bits(value: f64) -> FloatBits {
    FloatBits(value.to_bits())
}

fn entity(id: u128, parent: Option<u128>) -> Entity {
    Entity {
        id: EntityId(id),
        kind: "site".to_owned(),
        name: "Site".to_owned(),
        parent: parent.map(EntityId),
        valid_from: 0,
        valid_to: None,
        properties: TextMap::new(),
    }
}

fn series(id: u64, owner: u128) -> SeriesDefinition {
    SeriesDefinition {
        id,
        owner_entity: Some(EntityId(owner)),
        owner_relation: None,
        name: "battery_power".to_owned(),
        physical_quantity: "power".to_owned(),
        canonical_unit: "W".to_owned(),
        semantics: SeriesSemantics::Gauge,
        maximum_gap_micros: Some(10_000_000),
        rollup_policy: RollupPolicy {
            raw_retain_for_micros: Some(14 * 86_400_000_000),
            tiers: vec![RollupTier {
                resolution: RollupResolution::FixedMicros(300_000_000),
                retain_for_micros: None,
            }],
        },
    }
}

fn run(id: u128, parent_run: Option<u128>, input_snapshot: Option<u128>) -> Run {
    Run {
        id: RunId(id),
        kind: RunKind::Forecast,
        status: RunStatus::Pending,
        created_at: 1,
        knowledge_time: 1,
        workflow: "test".to_owned(),
        model: String::new(),
        model_version: String::new(),
        parent_run: parent_run.map(RunId),
        input_snapshot: input_snapshot.map(RunId),
        attributes: TextMap::new(),
    }
}

fn plan(id: u128, supersedes: Option<u128>) -> Plan {
    Plan {
        id,
        run_id: RunId(1),
        status: PlanStatus::Candidate,
        horizon_start: 0,
        horizon_end: 10,
        resolution_micros: 1,
        scenario: "test".to_owned(),
        objective_terms: TextMap::new(),
        objective_value: None,
        supersedes,
        attributes: TextMap::new(),
    }
}

fn relation(id: u128, source: u128, target: u128) -> Relation {
    Relation {
        id: RelationId(id),
        kind: "contains".to_owned(),
        source: EntityId(source),
        target: EntityId(target),
        valid_from: 0,
        valid_to: None,
        properties: TextMap::new(),
    }
}

fn refusal(records: Vec<Record>) -> String {
    Catalog::default()
        .validate_and_apply(&records)
        .unwrap_err()
        .message()
}

#[test]
fn energy_series_requires_one_owner_and_valid_rollups() {
    let series = SeriesDefinition {
        id: 1,
        owner_entity: Some(EntityId(1)),
        owner_relation: None,
        name: "battery_power".to_owned(),
        physical_quantity: "power".to_owned(),
        canonical_unit: "W".to_owned(),
        semantics: SeriesSemantics::Gauge,
        maximum_gap_micros: Some(10_000_000),
        rollup_policy: RollupPolicy {
            raw_retain_for_micros: Some(14 * 86_400_000_000),
            tiers: vec![RollupTier {
                resolution: RollupResolution::FixedMicros(300_000_000),
                retain_for_micros: None,
            }],
        },
    };
    assert_eq!(series.validate(), Ok(()));
}

#[test]
fn plan_requires_a_real_horizon() {
    let plan = Plan {
        id: 1,
        run_id: RunId(2),
        status: PlanStatus::Candidate,
        horizon_start: 100,
        horizon_end: 100,
        resolution_micros: 300_000_000,
        scenario: "base".to_owned(),
        objective_terms: TextMap::new(),
        objective_value: None,
        supersedes: None,
        attributes: TextMap::new(),
    };
    assert_eq!(
        plan.validate(),
        Err("plan horizon must have positive duration")
    );
}

#[test]
fn rejects_multi_node_run_provenance_cycles() {
    let records = vec![
        Record::Run(run(1, Some(2), None)),
        Record::Run(run(2, None, Some(1))),
    ];
    let error = Catalog::default().validate_and_apply(&records).unwrap_err();
    assert!(error.message().contains("run provenance cycle"));
}

#[test]
fn rejects_multi_node_plan_supersession_cycles() {
    let mut optimization = run(1, None, None);
    optimization.kind = RunKind::Optimization;
    let records = vec![
        Record::Run(optimization),
        Record::Plan(plan(10, Some(11))),
        Record::Plan(plan(11, Some(10))),
    ];
    let error = Catalog::default().validate_and_apply(&records).unwrap_err();
    assert!(error.message().contains("plan supersession cycle"));
}

#[test]
fn rejects_non_finite_property_values() {
    let mut entity = entity(1, None);
    entity
        .properties
        .insert("rating".to_owned(), PropertyValue::Float(bits(f64::INFINITY)));
    assert!(validate_entity(&entity).is_err());
}

#[test]
fn records_are_applied_and_found() {
    let mut optimization = run(1, None, None);
    optimization.kind = RunKind::Optimization;
    let records = vec![
        Record::Entity(entity(1, None)),
        Record::Entity(entity(2, Some(1))),
        Record::Relation(relation(7, 1, 2)),
        Record::Series(series(3, 2)),
        Record::Run(optimization),
        Record::Plan(plan(10, None)),
        Record::Points(vec![Point::actual(3, 5, bits(1.0))]),
    ];
    let catalog = Catalog::default().validate_and_apply(&records).unwrap();
    assert_eq!(catalog.entities(), vec![1, 2]);
    assert_eq!(catalog.relations(), vec![7]);
    assert_eq!(catalog.series_definitions(), vec![3]);
    assert_eq!(catalog.runs(), vec![1]);
    assert_eq!(catalog.plans(), vec![10]);
    assert_eq!(catalog.entity(EntityId(2)), Some(&entity(2, Some(1))));
    assert_eq!(catalog.entity(EntityId(3)), None);
    assert_eq!(catalog.series(3), Some(&series(3, 2)));
    assert_eq!(catalog.plan(10), Some(&plan(10, None)));
    let stats = catalog.stats();
    assert_eq!(
        (stats.entities, stats.relations, stats.series, stats.runs, stats.plans),
        (2, 1, 1, 1, 1)
    );
}

#[test]
fn references_must_lead_somewhere() {
    assert!(refusal(vec![Record::Entity(entity(2, Some(1)))])
        .contains("entity 2 refers to missing parent 1"));
    assert!(refusal(vec![Record::Entity(entity(1, None)), Record::Relation(relation(7, 1, 2))])
        .contains("relation 7 has a missing endpoint"));
    assert!(refusal(vec![Record::Series(series(3, 2))]).contains("series 3 has a missing owner"));
    assert!(refusal(vec![Record::Run(run(1, Some(5), None))])
        .contains("run 1 has missing provenance"));
    assert!(refusal(vec![Record::Plan(plan(10, None))])
        .contains("plan 10 refers to a missing run"));
    assert!(refusal(vec![Record::Run(run(1, None, None)), Record::Plan(plan(10, None))])
        .contains("plan 10 must refer to an optimization run"));
    let mut optimization = run(1, None, None);
    optimization.kind = RunKind::Optimization;
    assert!(refusal(vec![Record::Run(optimization), Record::Plan(plan(10, Some(9)))])
        .contains("plan 10 supersedes a missing plan"));
    assert!(refusal(vec![
        Record::Entity(entity(1, Some(2))),
        Record::Entity(entity(2, Some(1)))
    ])
    .contains("entity parent cycle contains"));
    assert!(refusal(vec![Record::Points(vec![Point::actual(4, 0, bits(1.0))])])
        .contains("point refers to undefined series 4"));
}

#[test]
fn each_record_keeps_its_own_rules() {
    assert!(refusal(vec![Record::Entity(entity(0, None))]).contains("entity id zero is reserved"));
    assert!(refusal(vec![Record::Entity(entity(1, Some(1)))])
        .contains("entity cannot be its own parent"));
    let mut backwards = entity(1, None);
    backwards.valid_to = Some(0);
    assert!(refusal(vec![Record::Entity(backwards)])
        .contains("entity validity interval must be positive"));
    let mut nameless = entity(1, None);
    nameless.name = " \u{2003}".to_owned();
    assert!(refusal(vec![Record::Entity(nameless)]).contains("entity kind and name are required"));
    assert!(refusal(vec![Record::Relation(relation(0, 1, 2))])
        .contains("relation id and kind are required"));
    assert!(validate_run(&run(1, Some(1), None)).is_err());
    assert!(validate_run(&run(1, None, None)).is_ok());
    let mut interval = Point::actual(1, 10, bits(1.0));
    interval.valid_time_end = 9;
    assert!(validate_point_intervals(&[interval]).is_err());
    assert!(validate_point_intervals(&[Point::actual(1, 10, bits(f64::NAN))]).is_err());
    assert!(validate_point_intervals(&[Point::actual(1, 10, bits(1.0))]).is_ok());
}

#[test]
fn completed_runs_are_immutable() {
    let mut done = run(1, None, None);
    done.status = RunStatus::Succeeded;
    let catalog = Catalog::default()
        .validate_and_apply(&[Record::Run(done)])
        .unwrap();
    let again = catalog.validate_and_apply(&[Record::Run(run(1, None, None))]);
    assert!(again.unwrap_err().message().contains("completed run 1 is immutable"));
}

#[test]
fn snapshots_rebuild_the_catalog() {
    let mut optimization = run(5, None, None);
    optimization.kind = RunKind::Optimization;
    let mut first = plan(10, Some(11));
    first.run_id = RunId(5);
    let mut second = plan(11, None);
    second.run_id = RunId(5);
    let records = vec![
        Record::Entity(entity(1, Some(2))),
        Record::Entity(entity(2, None)),
        Record::Run(optimization),
        Record::Run(run(4, Some(5), None)),
        Record::Plan(second),
        Record::Plan(first),
        Record::Series(series(3, 1)),
    ];
    let catalog = Catalog::default().validate_and_apply(&records).unwrap();
    let snapshot = catalog.snapshot_records().unwrap();
    let rebuilt = Catalog::default().validate_and_apply(&snapshot).unwrap();
    assert_eq!(rebuilt.entities(), catalog.entities());
    assert_eq!(rebuilt.entity(EntityId(1)), catalog.entity(EntityId(1)));
    assert_eq!(rebuilt.run(RunId(4)), catalog.run(RunId(4)));
    assert_eq!(rebuilt.plan(10), catalog.plan(10));
    assert_eq!(rebuilt.series(3), catalog.series(3));
    for length in 0..snapshot.len() {
        assert!(Catalog::default().validate_and_apply(&snapshot[..length]).is_ok());
    }
}

#[test]
fn recovered_records_name_their_frame() {
    let mut catalog = Catalog::default();
    let error = catalog
        .apply_recovered(&[Record::Series(series(3, 2))], 77)
        .unwrap_err();
    assert_eq!(
        error,
        Error::Corruption {
            offset: 77,
            reason: "invalid recovered transaction: invalid energy model: series 3 has a missing owner"
                .to_owned(),
        }
    );
    assert!(catalog.apply_recovered(&[Record::Entity(entity(1, None))], 0).is_ok());
    assert_eq!(catalog.entities(), vec![1]);
}

#[test]
fn dependencies_are_walked() {
    let mut links = BTreeMap::new();
    links.insert(1_u128, vec![2]);
    links.insert(2, vec![3]);
    links.insert(3, vec![]);
    assert_eq!(find_cycle(&links), None);
    assert_eq!(snapshot_order(&links), Some(vec![3, 2, 1]));
    assert_eq!(first_repeat(&links, 1), None);
    links.insert(3, vec![1]);
    assert_eq!(find_cycle(&links), Some(1));
    assert_eq!(snapshot_order(&links), None);
    assert_eq!(first_repeat(&links, 1), Some(1));
}

#[test]
fn transactions_count_their_points() {
    let mut transaction = Transaction::new();
    assert!(transaction.is_empty());
    transaction.upsert_entity(entity(1, None));
    transaction.append_points(vec![Point::actual(3, 5, bits(1.0)); 3]);
    transaction.append_points(vec![Point::actual(3, 5, bits(1.0)); 2]);
    assert_eq!(transaction.record_count(), 3);
    assert_eq!(transaction.point_count(), 5);
    assert!(transaction.ingress_identity().is_none());
}

#[test]
fn malformed_points_are_refused_with_the_same_words() {
    let mut backwards = Point::actual(1, 10, bits(1.0));
    backwards.valid_time_end = 9;
    for point in [backwards, Point::actual(1, 10, bits(f64::INFINITY))] {
        assert_eq!(
            validate_point_intervals(&[point]).unwrap_err().message(),
            refusal(vec![Record::Points(vec![point])])
        );
    }
}

#[test]
fn the_record_that_is_met_again_first_is_named() {
    let mut links = BTreeMap::new();
    links.insert(1_u128, vec![2]);
    links.insert(2, vec![3]);
    links.insert(3, vec![2]);
    assert_eq!(find_cycle(&links), Some(2));
    links.insert(1, vec![4, 2]);
    links.insert(4, vec![4]);
    assert_eq!(find_cycle(&links), Some(2));
    links.insert(1, vec![2, 4]);
    assert_eq!(find_cycle(&links), Some(4));

    let runs = vec![
        Record::Run(run(1, Some(2), Some(4))),
        Record::Run(run(2, Some(3), None)),
        Record::Run(run(3, Some(2), None)),
        Record::Run(run(4, Some(5), None)),
        Record::Run(run(5, Some(4), None)),
    ];
    let error = Catalog::default().validate_and_apply(&runs).unwrap_err();
    assert_eq!(error, Error::InvalidModel("run provenance cycle contains 2".to_owned()));
}

#[test]
fn numbers_are_compared_as_numbers() {
    assert_eq!(bits(0.0), bits(-0.0));
    assert_ne!(bits(f64::NAN), bits(f64::NAN));
    assert_ne!(bits(1.0), bits(2.0));
    assert_eq!(Point::actual(3, 5, bits(0.0)), Point::actual(3, 5, bits(-0.0)));
    let nan = Point::actual(3, 5, bits(f64::NAN));
    assert_ne!(nan, nan);
}
