use ftwdb::error::Error;
use ftwdb::model::{EntityId, FloatBits, Point};
use ftwdb::real_fixture::{
    value_field, RealFixtureLoad, RealFixtureLoadReport, REAL_FIXTURE_START_MICROS,
};
use ftwdb::transaction::{Record, Transaction};

const FIXTURE: &str =
    "driver_id,series_id,offset_ms,value\n1,1,0,12.5\n1,2,5,0\n2,3,3,-4.25\n1,1,20,13.5\n";

/// Loads a fixture, with every commit durable at once.
fn load(text: &str, batch: usize) -> Result<(RealFixtureLoadReport, Vec<Transaction>), Error> {
    let mut load = RealFixtureLoad::new(batch, 1_000)?;
    let mut transactions = Vec::new();
    for line in text.split_inclusive('\n') {
        let value = value_field(line)
            .and_then(|field| field.parse::<f64>().ok())
            .map(|value| FloatBits(value.to_bits()));
        if let Some(transaction) = load.add_line(line, value)? {
            transactions.push(transaction);
            load.committed(true);
        }
    }
    if let Some(transaction) = load.finish()? {
        transactions.push(transaction);
        load.committed(true);
    }
    Ok((load.report(), transactions))
}

fn points(transactions: &[Transaction]) -> Vec<Point> {
    let mut all = Vec::new();
    for transaction in transactions {
        for record in &transaction.records {
            if let Record::Points(points) = record {
                all.extend_from_slice(points);
            }
        }
    }
    all
}

#[test]
fn loads_shifted_real_fixture_and_keeps_input_order() {
    let (report, transactions) = load(FIXTURE, 2).unwrap();
    assert_eq!(report.points, 4);
    assert_eq!(report.entities, 2);
    assert_eq!(report.series, 3);
    assert_eq!(report.commits, 2);
    assert_eq!(report.first_offset_millis, 0);
    assert_eq!(report.last_offset_millis, 20);
    assert_eq!(report.input_bytes, FIXTURE.len() as u64);
    assert_eq!(report.input_crc32, crc32fast::hash(FIXTURE.as_bytes()));

    let all = points(&transactions);
    let history: Vec<&Point> = all
        .iter()
        .filter(|point| {
            point.series_id == 1
                && point.valid_time >= REAL_FIXTURE_START_MICROS
                && point.valid_time < REAL_FIXTURE_START_MICROS + 21_000
        })
        .collect();
    assert_eq!(history.len(), 2);
    assert_eq!(history[0].value, FloatBits(12.5_f64.to_bits()));
    assert_eq!(history[1].value, FloatBits(13.5_f64.to_bits()));
    assert_eq!(all[2].valid_time, REAL_FIXTURE_START_MICROS + 3_000);
    assert!(matches!(
        &transactions[0].records[0],
        Record::Entity(entity) if entity.id == EntityId(1)
    ));
}

#[test]
fn rejects_changed_series_owner_and_invalid_header() {
    let changed_owner = "driver_id,series_id,offset_ms,value\n1,1,0,1\n2,1,1,2\n";
    assert!(load(changed_owner, 10).is_err());
    assert!(load("wrong\n", 10).is_err());
}

#[test]
fn rejects_rows_that_are_not_numbers() {
    for row in ["1,1,0", "1,1,0,1,1", "x,1,0,1", "1,0,0,1", "1,1,-1,1", "1,1,0,inf", "1,1,0,z"] {
        let text = format!("driver_id,series_id,offset_ms,value\n{row}\n");
        assert!(load(&text, 10).is_err(), "{row}");
    }
    assert!(matches!(load("", 10), Err(Error::InvalidModel(reason)) if reason == "real fixture is empty"));
}

#[test]
fn batches_stay_within_the_limits_of_a_store() {
    let refused = "real fixture batch points must be between 1 and 7";
    for batch in [0, 8] {
        assert_eq!(
            RealFixtureLoad::new(batch, 7).unwrap_err(),
            Error::InvalidModel(refused.to_owned())
        );
    }
    assert!(RealFixtureLoad::new(7, 7).is_ok());
}
