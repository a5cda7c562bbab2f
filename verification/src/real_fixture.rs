//! Loading a sanitized real-installation CSV fixture into a store.
//!
//! The input uses offsets instead of source timestamps. This keeps cadence,
//! jitter, gaps, ordering, and values without retaining the installation's exact
//! dates.
use crate::bytes::put_le;
#[allow(unused_imports)]
use crate::bytes::{bits_of_i64, le};
use crate::checksum::{crc32, crc32_continue};
#[allow(unused_imports)]
use crate::checksum::{continues, crc32_of};
use crate::error::Error;
#[allow(unused_imports)]
use crate::error::invalid_model;
use crate::model::{
    Entity, EntityId, FloatBits, Point, Properties, PropertyValue, RollupPolicy, SeriesDefinition,
    SeriesSemantics,
};
#[allow(unused_imports)]
use crate::model::{finite, EntityModel, PolicyModel, PropertyModel, SeriesModel};
use crate::text::put_decimal;
#[allow(unused_imports)]
use crate::text::decimal;
use crate::text_scan::{characters, characters_are, parse_signed, parse_unsigned, split, text_of};
#[allow(unused_imports)]
use crate::text_scan::{pieces, signed_value, texts, unsigned_value};
use crate::transaction::Transaction;
#[allow(unused_imports)]
use crate::transaction::RecordModel;
use std::collections::{BTreeMap, BTreeSet};
use vstd::prelude::*;
use vstd::std_specs::btree::*;
use vstd::string::*;

verus! {

/// The time that offset zero stands for.
pub const REAL_FIXTURE_START_MICROS: i64 = 1_767_225_600_000_000;

#[derive(Clone, Copy, Debug, PartialEq, Eq, Structural)]
pub struct RealFixtureLoadReport {
    pub points: u64,
    pub commits: u64,
    pub commits_durable_immediately: u64,
    pub entities: usize,
    pub series: usize,
    pub input_bytes: u64,
    pub input_crc32: u32,
    pub points_crc32: u32,
    pub first_offset_millis: i64,
    pub last_offset_millis: i64,
}

/// One row of the fixture.
#[derive(Clone, Copy, Debug, PartialEq)]
pub struct Row {
    pub driver_id: u64,
    pub series_id: u64,
    pub offset_millis: i64,
    pub value: FloatBits,
}

/// A line without the line ends behind it.
pub open spec fn content_of(line: Seq<char>) -> Seq<char>
    decreases line.len(),
{
    if line.len() > 0 && (line.last() == '\r' || line.last() == '\n') {
        content_of(line.drop_last())
    } else {
        line
    }
}

fn content(line: &str) -> (out: Vec<char>)
    ensures
        out@ == content_of(line@),
{
    let mut out = characters(line);
    let mut len: usize = out.len();
    while len > 0 && (out[len - 1] == '\r' || out[len - 1] == '\n')
        invariant
            len == out@.len(),
            content_of(line@) == content_of(out@),
        decreases len,
    {
        out.pop();
        len = len - 1;
    }
    out
}

/// The positive number in a field, or why there is none.
pub open spec fn positive_field(fields: Seq<Seq<char>>, i: int, name: Seq<char>) -> Result<
    nat,
    Seq<char>,
> {
    if i >= fields.len() {
        Err("missing "@ + name)
    } else {
        match unsigned_value(fields[i]) {
            Err(_) => Err("invalid "@ + name),
            Ok(n) => if n == 0 {
                Err(name + " must be positive"@)
            } else {
                Ok(n)
            },
        }
    }
}

/// What a row says, or what is wrong with it. `value` is the number that the
/// fourth field stands for, where it stands for one.
pub open spec fn row_of(content: Seq<char>, value: Option<FloatBits>) -> Result<Row, Seq<char>> {
    let fields = pieces(content, ',');
    match positive_field(fields, 0, "driver id"@) {
        Err(reason) => Err(reason),
        Ok(driver) => match positive_field(fields, 1, "series id"@) {
            Err(reason) => Err(reason),
            Ok(series) => if fields.len() <= 2 {
                Err("missing offset"@)
            } else {
                match signed_value(fields[2]) {
                    Err(_) => Err("invalid offset"@),
                    Ok(offset) => if offset < 0 {
                        Err("negative offset"@)
                    } else if fields.len() <= 3 {
                        Err("missing value"@)
                    } else {
                        match value {
                            None => Err("invalid value"@),
                            Some(bits) => if fields.len() > 4 {
                                Err("too many fields"@)
                            } else if !finite(bits) {
                                Err("non-finite value"@)
                            } else {
                                Ok(
                                    Row {
                                        driver_id: driver as u64,
                                        series_id: series as u64,
                                        offset_millis: offset as i64,
                                        value: bits,
                                    },
                                )
                            },
                        }
                    },
                }
            },
        },
    }
}

fn parse_positive(fields: &Vec<Vec<char>>, i: usize, name: &str) -> (outcome: Result<u64, String>)
    ensures
        match positive_field(texts(fields@), i as int, name@) {
            Ok(n) => outcome matches Ok(v) && v == n,
            Err(reason) => outcome matches Err(text) && text@ == reason,
        },
{
    let mut text = String::new();
    if i >= fields.len() {
        text.append("missing ");
        text.append(name);
        assert(text@ =~= "missing "@ + name@);
        return Err(text);
    }
    assert(texts(fields@)[i as int] == fields@[i as int]@);
    let value: u64 = match parse_unsigned(fields[i].as_slice()) {
        Ok(value) => value,
        Err(_) => {
            text.append("invalid ");
            text.append(name);
            assert(text@ =~= "invalid "@ + name@);
            return Err(text);
        },
    };
    if value == 0 {
        text.append(name);
        text.append(" must be positive");
        assert(text@ =~= name@ + " must be positive"@);
        return Err(text);
    }
    Ok(value)
}

/// Reads a row. `value` is the number that the fourth field stands for.
pub fn parse_row(content: &[char], value: Option<FloatBits>) -> (outcome: Result<Row, String>)
    ensures
        match row_of(content@, value) {
            Ok(row) => outcome == Ok::<Row, String>(row),
            Err(reason) => outcome matches Err(text) && text@ == reason,
        },
{
    let fields = split(content, ',');
    assert(texts(fields@).len() == fields@.len());
    let driver_id: u64 = parse_positive(&fields, 0, "driver id")?;
    let series_id: u64 = parse_positive(&fields, 1, "series id")?;
    if fields.len() <= 2 {
        return Err("missing offset".to_owned());
    }
    assert(texts(fields@)[2] == fields@[2]@);
    let offset_millis: i64 = match parse_signed(fields[2].as_slice()) {
        Ok(offset) => offset,
        Err(_) => {
            return Err("invalid offset".to_owned());
        },
    };
    if offset_millis < 0 {
        return Err("negative offset".to_owned());
    }
    if fields.len() <= 3 {
        return Err("missing value".to_owned());
    }
    let value: FloatBits = match value {
        Some(value) => value,
        None => {
            return Err("invalid value".to_owned());
        },
    };
    if fields.len() > 4 {
        return Err("too many fields".to_owned());
    }
    if !value.is_finite() {
        return Err("non-finite value".to_owned());
    }
    Ok(Row { driver_id, series_id, offset_millis, value })
}

/// The text of the field that holds a row's value, where there is one.
pub fn value_field(line: &str) -> (field: Option<String>)
    ensures
        match field {
            Some(text) => pieces(content_of(line@), ',').len() > 3 && text@ == pieces(
                content_of(line@),
                ',',
            )[3],
            None => pieces(content_of(line@), ',').len() <= 3,
        },
{
    let fields = split(content(line).as_slice(), ',');
    assert(texts(fields@).len() == fields@.len());
    if fields.len() > 3 {
        assert(texts(fields@)[3] == fields@[3]@);
        Some(text_of(fields[3].as_slice()))
    } else {
        None
    }
}

/// A number with zeros in front to four digits.
pub open spec fn four_digits(n: nat) -> Seq<char> {
    (if n < 10 {
        "000"@
    } else if n < 100 {
        "00"@
    } else if n < 1000 {
        "0"@
    } else {
        ""@
    }) + decimal(n)
}

fn put_four_digits(text: &mut String, n: u64)
    ensures
        final(text)@ == old(text)@ + four_digits(n as nat),
{
    if n < 10 {
        text.append("000");
    } else if n < 100 {
        text.append("00");
    } else if n < 1000 {
        text.append("0");
    } else {
        text.append("");
    }
    put_decimal(text, n as u128);
    assert(text@ =~= old(text)@ + four_digits(n as nat));
}

/// The entity that stands for a driver.
pub open spec fn driver_entity(driver_id: u64) -> EntityModel {
    EntityModel {
        id: EntityId(driver_id as u128),
        kind: "fixture_driver"@,
        name: "driver-"@ + four_digits(driver_id as nat),
        parent: None,
        valid_from: REAL_FIXTURE_START_MICROS,
        valid_to: None,
        properties: seq![("source"@, PropertyModel::Text("sanitized-real-installation"@))],
    }
}

fn entity_for_driver(driver_id: u64) -> (entity: Entity)
    ensures
        entity.deep_view() == driver_entity(driver_id),
{
    let mut name = String::new();
    name.append("driver-");
    put_four_digits(&mut name, driver_id);
    assert(name@ =~= "driver-"@ + four_digits(driver_id as nat));
    let mut properties: Properties = Properties::new();
    properties.push_last(
        "source".to_owned(),
        PropertyValue::Text("sanitized-real-installation".to_owned()),
    );
    assert(properties.deep_view() =~= seq![
        ("source"@, PropertyModel::Text("sanitized-real-installation"@)),
    ]);
    Entity {
        id: EntityId(driver_id as u128),
        kind: "fixture_driver".to_owned(),
        name,
        parent: None,
        valid_from: REAL_FIXTURE_START_MICROS,
        valid_to: None,
        properties,
    }
}

/// The definition of a series that belongs to a driver.
pub open spec fn metric_series(series_id: u64, driver_id: u64) -> SeriesModel {
    SeriesModel {
        id: series_id,
        owner_entity: Some(EntityId(driver_id as u128)),
        owner_relation: None,
        name: "metric-"@ + four_digits(series_id as nat),
        physical_quantity: "sanitized_measurement"@,
        canonical_unit: "1"@,
        semantics: SeriesSemantics::Gauge,
        maximum_gap_micros: None,
        rollup_policy: PolicyModel { raw_retain_for_micros: None, tiers: Seq::empty() },
    }
}

fn series_for_metric(series_id: u64, driver_id: u64) -> (series: SeriesDefinition)
    ensures
        series.deep_view() == metric_series(series_id, driver_id),
{
    let mut name = String::new();
    name.append("metric-");
    put_four_digits(&mut name, series_id);
    assert(name@ =~= "metric-"@ + four_digits(series_id as nat));
    let series = SeriesDefinition {
        id: series_id,
        owner_entity: Some(EntityId(driver_id as u128)),
        owner_relation: None,
        name,
        physical_quantity: "sanitized_measurement".to_owned(),
        canonical_unit: "1".to_owned(),
        semantics: SeriesSemantics::Gauge,
        maximum_gap_micros: None,
        rollup_policy: RollupPolicy { raw_retain_for_micros: None, tiers: Vec::new() },
    };
    assert(series.deep_view().rollup_policy.tiers =~= Seq::empty());
    series
}

/// The bytes of a point that its checksum covers.
pub open spec fn point_bytes(p: Point) -> Seq<u8> {
    le(p.series_id as nat, 8) + le(bits_of_i64(p.valid_time), 8) + le(p.value.0 as nat, 8)
}

fn update_point_checksum(sum: u32, point: &Point) -> (next: u32)
    ensures
        continues(sum, point_bytes(*point), next),
{
    let mut data: Vec<u8> = Vec::new();
    put_le(&mut data, point.series_id as u128, 8);
    proof {
        crate::bytes::lemma_i64_bits(point.valid_time);
    }
    put_le(&mut data, (point.valid_time as u64) as u128, 8);
    put_le(&mut data, point.value.0 as u128, 8);
    assert(data@ =~= point_bytes(*point));
    crc32_continue(sum, data.as_slice())
}

/// How far a load has come.
#[verifier::ext_equal]
pub struct LoadModel {
    pub batch_points: usize,
    pub lines: u64,
    pub input_bytes: u64,
    pub points: u64,
    /// The records that wait for the next commit.
    pub transaction: Seq<RecordModel>,
    /// The points that wait for the next commit.
    pub batch: Seq<Point>,
    pub drivers: Set<u64>,
    pub owners: Map<u64, u64>,
    pub first_offset: Option<i64>,
    pub last_offset: Option<i64>,
    pub commits: u64,
    pub durable_commits: u64,
}

/// A load that has read nothing yet.
pub open spec fn fresh_load(batch_points: usize) -> LoadModel {
    LoadModel {
        batch_points,
        lines: 0,
        input_bytes: 0,
        points: 0,
        transaction: Seq::empty(),
        batch: Seq::empty(),
        drivers: Set::empty(),
        owners: Map::empty(),
        first_offset: None,
        last_offset: None,
        commits: 0,
        durable_commits: 0,
    }
}

pub open spec fn row_error(line_number: nat, reason: Seq<char>) -> Seq<char> {
    "invalid real fixture row "@ + decimal(line_number) + ": "@ + reason
}

/// The records that a row adds before its point: its driver and its series, where
/// they are new.
pub open spec fn new_records(m: LoadModel, row: Row) -> Seq<RecordModel> {
    (if m.drivers.contains(row.driver_id) {
        Seq::empty()
    } else {
        seq![RecordModel::Entity(driver_entity(row.driver_id))]
    }) + (if m.owners.contains_key(row.series_id) {
        Seq::empty()
    } else {
        seq![RecordModel::Series(metric_series(row.series_id, row.driver_id))]
    })
}

/// The time of a row.
pub open spec fn row_time(row: Row) -> int {
    REAL_FIXTURE_START_MICROS + row.offset_millis * 1000
}

/// The point of a row.
pub open spec fn row_point(row: Row) -> Point {
    Point {
        series_id: row.series_id,
        valid_time: row_time(row) as i64,
        valid_time_end: row_time(row) as i64,
        knowledge_time: row_time(row) as i64,
        change_time: row_time(row) as i64,
        run_id: 0,
        value: row.value,
        quality: 0,
        flags: 0,
    }
}

pub open spec fn lower(old: Option<i64>, offset: i64) -> Option<i64> {
    match old {
        Some(o) if o < offset => Some(o),
        _ => Some(offset),
    }
}

pub open spec fn higher(old: Option<i64>, offset: i64) -> Option<i64> {
    match old {
        Some(o) if o > offset => Some(o),
        _ => Some(offset),
    }
}

/// A load after a row, and the transaction to commit once a batch is full.
pub open spec fn after_row(m: LoadModel, row: Row) -> Result<
    (LoadModel, Option<Seq<RecordModel>>),
    Seq<char>,
> {
    let number = m.lines as nat;
    if m.owners.contains_key(row.series_id) && m.owners[row.series_id] != row.driver_id {
        Err(
            row_error(number, "series "@ + decimal(row.series_id as nat) + " changed owner"@),
        )
    } else if row_time(row) > i64::MAX {
        Err(row_error(number, "timestamp overflow"@))
    } else {
        let batch = m.batch.push(row_point(row));
        let transaction = m.transaction + new_records(m, row);
        let next = LoadModel {
            points: (m.points + 1) as u64,
            transaction,
            batch,
            drivers: m.drivers.insert(row.driver_id),
            owners: m.owners.insert(row.series_id, row.driver_id),
            first_offset: lower(m.first_offset, row.offset_millis),
            last_offset: higher(m.last_offset, row.offset_millis),
            ..m
        };
        if batch.len() == m.batch_points {
            Ok(
                (
                    LoadModel { transaction: Seq::empty(), batch: Seq::empty(), ..next },
                    Some(transaction.push(RecordModel::Points(batch))),
                ),
            )
        } else {
            Ok((next, None))
        }
    }
}

/// A load after one more line of input.
pub open spec fn after_line(
    m: LoadModel,
    line: Seq<char>,
    bytes: nat,
    value: Option<FloatBits>,
) -> Result<(LoadModel, Option<Seq<RecordModel>>), Seq<char>> {
    let counted = LoadModel {
        lines: (m.lines + 1) as u64,
        input_bytes: if m.input_bytes + bytes > u64::MAX {
            u64::MAX
        } else {
            (m.input_bytes + bytes) as u64
        },
        ..m
    };
    let content = content_of(line);
    if counted.lines == 1 {
        if content == "driver_id,series_id,offset_ms,value"@ {
            Ok((counted, None))
        } else {
            Err("real fixture has an unknown CSV header"@)
        }
    } else if content.len() == 0 {
        Ok((counted, None))
    } else {
        match row_of(content, value) {
            Err(reason) => Err(row_error(counted.lines as nat, reason)),
            Ok(row) => after_row(counted, row),
        }
    }
}

/// The point that a line adds, if it adds one.
pub open spec fn line_point(m: LoadModel, line: Seq<char>, value: Option<FloatBits>) -> Option<Point> {
    if m.lines == 0 || content_of(line).len() == 0 {
        None
    } else {
        match row_of(content_of(line), value) {
            Ok(row) => Some(row_point(row)),
            Err(_) => None,
        }
    }
}

/// A line of input: its text, how many bytes it has, and the number that its value field
/// stands for.
pub struct InputLine {
    pub text: Seq<char>,
    pub bytes: nat,
    pub value: Option<FloatBits>,
}

/// A load after some more lines of input, and the transactions that filled on the way.
pub open spec fn after_lines(m: LoadModel, lines: Seq<InputLine>) -> Result<
    (LoadModel, Seq<Seq<RecordModel>>),
    Seq<char>,
>
    decreases lines.len(),
{
    if lines.len() == 0 {
        Ok((m, Seq::empty()))
    } else {
        match after_lines(m, lines.drop_last()) {
            Err(text) => Err(text),
            Ok((before, full)) => {
                let line = lines.last();
                match after_line(before, line.text, line.bytes, line.value) {
                    Err(text) => Err(text),
                    Ok((next, Some(records))) => Ok((next, full.push(records))),
                    Ok((next, None)) => Ok((next, full)),
                }
            },
        }
    }
}

/// The points of the rows among some lines, in the order of the lines, where `before`
/// lines were read already.
pub open spec fn points_of_lines(before: nat, lines: Seq<InputLine>) -> Seq<Point>
    decreases lines.len(),
{
    if lines.len() == 0 {
        Seq::empty()
    } else {
        let front = points_of_lines(before, lines.drop_last());
        let content = content_of(lines.last().text);
        if before + lines.len() == 1 || content.len() == 0 {
            front
        } else {
            match row_of(content, lines.last().value) {
                Ok(row) => front.push(row_point(row)),
                Err(_) => front,
            }
        }
    }
}

/// The points of some records, in their order.
pub open spec fn points_of_records(records: Seq<RecordModel>) -> Seq<Point>
    decreases records.len(),
{
    if records.len() == 0 {
        Seq::empty()
    } else {
        let front = points_of_records(records.drop_last());
        match records.last() {
            RecordModel::Points(points) => front + points,
            _ => front,
        }
    }
}

/// The points of some transactions, in their order.
pub open spec fn points_of_transactions(transactions: Seq<Seq<RecordModel>>) -> Seq<Point>
    decreases transactions.len(),
{
    if transactions.len() == 0 {
        Seq::empty()
    } else {
        points_of_transactions(transactions.drop_last()) + points_of_records(transactions.last())
    }
}

/// Whether no points are among the records that wait, and fewer points wait than fill a
/// batch.
pub open spec fn load_waits(m: LoadModel) -> bool {
    &&& points_of_records(m.transaction).len() == 0
    &&& m.batch.len() < m.batch_points
}

proof fn lemma_no_points_among(m: LoadModel, row: Row)
    requires
        points_of_records(m.transaction).len() == 0,
    ensures
        points_of_records(m.transaction + new_records(m, row)).len() == 0,
{
    let all = m.transaction + new_records(m, row);
    let entity = if m.drivers.contains(row.driver_id) {
        Seq::empty()
    } else {
        seq![RecordModel::Entity(driver_entity(row.driver_id))]
    };
    let with_entity = m.transaction + entity;
    assert(points_of_records(with_entity).len() == 0) by {
        if entity.len() == 0 {
            assert(with_entity =~= m.transaction);
        } else {
            assert(with_entity.drop_last() =~= m.transaction);
        }
    }
    if m.owners.contains_key(row.series_id) {
        assert(all =~= with_entity);
    } else {
        assert(all.drop_last() =~= with_entity);
    }
}

/// A load keeps the order of its input: the points of its full transactions, with the
/// points that still wait behind them, are those of the rows in the order of the lines.
/// Every full transaction holds as many points as a batch has.
pub proof fn loads_keep_input_order(m: LoadModel, lines: Seq<InputLine>)
    requires
        load_waits(m),
        m.lines + lines.len() <= u64::MAX,
        after_lines(m, lines) is Ok,
    ensures
        ({
            let (next, full) = after_lines(m, lines)->Ok_0;
            &&& load_waits(next)
            &&& next.lines == m.lines + lines.len()
            &&& next.batch_points == m.batch_points
            &&& points_of_transactions(full) + next.batch == m.batch + points_of_lines(
                m.lines as nat,
                lines,
            )
            &&& forall|i: int|
                0 <= i < full.len() ==> points_of_records(#[trigger] full[i]).len()
                    == m.batch_points
        }),
    decreases lines.len(),
{
    if lines.len() == 0 {
        assert(Seq::<Point>::empty() + m.batch =~= m.batch + Seq::<Point>::empty());
    } else {
        let front = lines.drop_last();
        let line = lines.last();
        loads_keep_input_order(m, front);
        let (before, some) = after_lines(m, front)->Ok_0;
        let counted = LoadModel {
            lines: (before.lines + 1) as u64,
            input_bytes: if before.input_bytes + line.bytes > u64::MAX {
                u64::MAX
            } else {
                (before.input_bytes + line.bytes) as u64
            },
            ..before
        };
        let content = content_of(line.text);
        if counted.lines != 1 && content.len() > 0 {
            let row = row_of(content, line.value)->Ok_0;
            lemma_no_points_among(counted, row);
            let batch = before.batch.push(row_point(row));
            let waiting = counted.transaction + new_records(counted, row);
            assert(points_of_transactions(some) + batch =~= (points_of_transactions(some)
                + before.batch).push(row_point(row)));
            assert((m.batch + points_of_lines(m.lines as nat, front)).push(row_point(row))
                =~= m.batch + points_of_lines(m.lines as nat, lines));
            if batch.len() == m.batch_points {
                let records = waiting.push(RecordModel::Points(batch));
                assert(records.drop_last() =~= waiting);
                assert(points_of_records(records) =~= batch);
                assert(some.push(records).drop_last() =~= some);
                assert(points_of_transactions(some.push(records)) + Seq::<Point>::empty()
                    =~= points_of_transactions(some) + batch);
                let full = some.push(records);
                assert forall|i: int| 0 <= i < full.len() implies points_of_records(
                    #[trigger] full[i],
                ).len() == m.batch_points by {
                    if i < some.len() {
                        assert(full[i] == some[i]);
                    }
                }
            }
        }
    }
}

/// A load in progress.
#[derive(Debug)]
pub struct RealFixtureLoad {
    batch_points: usize,
    lines: u64,
    input_bytes: u64,
    input_crc32: u32,
    points_crc32: u32,
    points: u64,
    transaction: Transaction,
    batch: Vec<Point>,
    drivers: BTreeSet<u64>,
    owners: BTreeMap<u64, u64>,
    first_offset: Option<i64>,
    last_offset: Option<i64>,
    commits: u64,
    durable_commits: u64,
}

fn row_failure(line_number: u64, reason: &str) -> (error: Error)
    ensures
        invalid_model(error, row_error(line_number as nat, reason@)),
{
    let mut text = String::new();
    text.append("invalid real fixture row ");
    put_decimal(&mut text, line_number as u128);
    text.append(": ");
    text.append(reason);
    assert(text@ =~= row_error(line_number as nat, reason@));
    Error::InvalidModel(text)
}

impl RealFixtureLoad {
    /// How far the load has come.
    pub closed spec fn model(&self) -> LoadModel {
        LoadModel {
            batch_points: self.batch_points,
            lines: self.lines,
            input_bytes: self.input_bytes,
            points: self.points,
            transaction: self.transaction.deep_view(),
            batch: self.batch@,
            drivers: self.drivers@,
            owners: self.owners@,
            first_offset: self.first_offset,
            last_offset: self.last_offset,
            commits: self.commits,
            durable_commits: self.durable_commits,
        }
    }

    /// The checksum of the input so far.
    pub closed spec fn input_sum(&self) -> u32 {
        self.input_crc32
    }

    /// The checksum of the points so far.
    pub closed spec fn points_sum(&self) -> u32 {
        self.points_crc32
    }

    /// Starts a load with a commit every `batch_points` points, of which the store
    /// takes at most `max_batch_points`.
    pub fn new(batch_points: usize, max_batch_points: usize) -> (outcome: Result<Self, Error>)
        ensures
            if batch_points == 0 || batch_points > max_batch_points {
                outcome matches Err(error) && invalid_model(
                    error,
                    "real fixture batch points must be between 1 and "@ + decimal(
                        max_batch_points as nat,
                    ),
                )
            } else {
                outcome matches Ok(load) && load.model() == fresh_load(batch_points)
                    && load.input_sum() == crc32_of(Seq::empty()) && load.points_sum() == crc32_of(
                    Seq::empty(),
                )
            },
    {
        if batch_points == 0 || batch_points > max_batch_points {
            let mut text = String::new();
            text.append("real fixture batch points must be between 1 and ");
            put_decimal(&mut text, max_batch_points as u128);
            assert(text@ =~= "real fixture batch points must be between 1 and "@ + decimal(
                max_batch_points as nat,
            ));
            return Err(Error::InvalidModel(text));
        }
        let nothing: Vec<u8> = Vec::new();
        assert(nothing@ =~= Seq::<u8>::empty());
        let sum: u32 = crc32(nothing.as_slice());
        let load = RealFixtureLoad {
            batch_points,
            lines: 0,
            input_bytes: 0,
            input_crc32: sum,
            points_crc32: sum,
            points: 0,
            transaction: Transaction::new(),
            batch: Vec::new(),
            drivers: BTreeSet::new(),
            owners: BTreeMap::new(),
            first_offset: None,
            last_offset: None,
            commits: 0,
            durable_commits: 0,
        };
        assert(load.model() =~= fresh_load(batch_points));
        Ok(load)
    }

    /// Adds a row, and gives a transaction once a batch is full.
    fn add_row(&mut self, row: Row) -> (outcome: Result<Option<Transaction>, Error>)
        requires
            old(self).model().points < u64::MAX,
            row.offset_millis >= 0,
        ensures
            final(self).input_sum() == old(self).input_sum(),
            match after_row(old(self).model(), row) {
                Err(text) => outcome matches Err(error) && invalid_model(error, text),
                Ok((next, full)) => {
                    &&& final(self).model() == next
                    &&& continues(
                        old(self).points_sum(),
                        point_bytes(row_point(row)),
                        final(self).points_sum(),
                    )
                    &&& match full {
                        Some(records) => outcome matches Ok(Some(t)) && t.deep_view() == records,
                        None => outcome matches Ok(None),
                    }
                },
            },
    {
        broadcast use group_btree_axioms;

        let ghost m = self.model();
        if !self.drivers.contains(&row.driver_id) {
            self.drivers.insert(row.driver_id);
            self.transaction.upsert_entity(entity_for_driver(row.driver_id));
        }
        assert(self.drivers@ =~= m.drivers.insert(row.driver_id));
        let owner: Option<u64> = match self.owners.get(&row.series_id) {
            Some(owner) => Some(*owner),
            None => None,
        };
        match owner {
            None => {
                self.transaction.define_series(series_for_metric(row.series_id, row.driver_id));
            },
            Some(owner) => {
                if owner != row.driver_id {
                    let mut reason = String::new();
                    reason.append("series ");
                    put_decimal(&mut reason, row.series_id as u128);
                    reason.append(" changed owner");
                    assert(reason@ =~= "series "@ + decimal(row.series_id as nat)
                        + " changed owner"@);
                    return Err(row_failure(self.lines, reason.as_str()));
                }
            },
        }
        self.owners.insert(row.series_id, row.driver_id);
        assert(self.transaction.deep_view() =~= m.transaction + new_records(m, row));
        let offset_micros: i64 = match row.offset_millis.checked_mul(1000) {
            Some(micros) => micros,
            None => {
                return Err(row_failure(self.lines, "timestamp overflow"));
            },
        };
        let time: i64 = match REAL_FIXTURE_START_MICROS.checked_add(offset_micros) {
            Some(time) => time,
            None => {
                return Err(row_failure(self.lines, "timestamp overflow"));
            },
        };
        let point = Point::actual(row.series_id, time, row.value);
        assert(point == row_point(row));
        self.points_crc32 = update_point_checksum(self.points_crc32, &point);
        self.batch.push(point);
        self.points = self.points + 1;
        self.first_offset = match self.first_offset {
            Some(o) => if o < row.offset_millis {
                Some(o)
            } else {
                Some(row.offset_millis)
            },
            None => Some(row.offset_millis),
        };
        self.last_offset = match self.last_offset {
            Some(o) => if o > row.offset_millis {
                Some(o)
            } else {
                Some(row.offset_millis)
            },
            None => Some(row.offset_millis),
        };
        if self.batch.len() == self.batch_points {
            let mut batch: Vec<Point> = Vec::new();
            std::mem::swap(&mut batch, &mut self.batch);
            let mut transaction = Transaction::new();
            std::mem::swap(&mut transaction, &mut self.transaction);
            transaction.append_points(batch);
            assert(self.batch@ =~= Seq::<Point>::empty());
            assert(self.model() =~= (after_row(m, row)->Ok_0).0);
            return Ok(Some(transaction));
        }
        assert(self.model() =~= (after_row(m, row)->Ok_0).0);
        Ok(None)
    }

    /// Adds a line of input with its line end, and gives a transaction once a batch
    /// is full. `value` is the number that the line's value field stands for.
    pub fn add_line(&mut self, line: &str, value: Option<FloatBits>) -> (outcome: Result<
        Option<Transaction>,
        Error,
    >)
        requires
            old(self).model().lines < u64::MAX,
            old(self).model().points < u64::MAX,
        ensures
            match after_line(old(self).model(), line@, line.spec_bytes().len(), value) {
                Err(text) => outcome matches Err(error) && invalid_model(error, text),
                Ok((next, full)) => {
                    &&& final(self).model() == next
                    &&& continues(
                        old(self).input_sum(),
                        line.spec_bytes(),
                        final(self).input_sum(),
                    )
                    &&& match line_point(old(self).model(), line@, value) {
                        Some(point) => continues(
                            old(self).points_sum(),
                            point_bytes(point),
                            final(self).points_sum(),
                        ),
                        None => final(self).points_sum() == old(self).points_sum(),
                    }
                    &&& match full {
                        Some(records) => outcome matches Ok(Some(t)) && t.deep_view() == records,
                        None => outcome matches Ok(None),
                    }
                },
            },
    {
        let ghost m = self.model();
        self.lines = self.lines + 1;
        let data = line.as_bytes();
        let n: usize = data.len();
        self.input_bytes = self.input_bytes.saturating_add(n as u64);
        self.input_crc32 = crc32_continue(self.input_crc32, data);
        let content = content(line);
        if self.lines == 1 {
            if !characters_are(content.as_slice(), "driver_id,series_id,offset_ms,value") {
                return Err(
                    Error::InvalidModel("real fixture has an unknown CSV header".to_owned()),
                );
            }
            assert(self.model() =~= (after_line(m, line@, n as nat, value)->Ok_0).0);
            return Ok(None);
        }
        if content.len() == 0 {
            assert(self.model() =~= (after_line(m, line@, n as nat, value)->Ok_0).0);
            return Ok(None);
        }
        let row: Row = match parse_row(content.as_slice(), value) {
            Ok(row) => row,
            Err(reason) => {
                return Err(row_failure(self.lines, reason.as_str()));
            },
        };
        proof {
            let counted = LoadModel {
                lines: (m.lines + 1) as u64,
                input_bytes: if m.input_bytes + n > u64::MAX {
                    u64::MAX
                } else {
                    (m.input_bytes + n) as u64
                },
                ..m
            };
            assert(self.model() =~= counted);
        }
        self.add_row(row)
    }

    /// Takes note of a commit.
    pub fn committed(&mut self, durable: bool)
        requires
            old(self).model().commits < u64::MAX,
            old(self).model().durable_commits < u64::MAX,
        ensures
            final(self).model() == (LoadModel {
                commits: (old(self).model().commits + 1) as u64,
                durable_commits: (old(self).model().durable_commits + if durable {
                    1int
                } else {
                    0int
                }) as u64,
                ..old(self).model()
            }),
            final(self).input_sum() == old(self).input_sum(),
            final(self).points_sum() == old(self).points_sum(),
    {
        self.commits = self.commits + 1;
        if durable {
            self.durable_commits = self.durable_commits + 1;
        }
    }

    /// Ends the input, and gives the transaction that is left to commit, if any.
    pub fn finish(&mut self) -> (outcome: Result<Option<Transaction>, Error>)
        ensures
            final(self).input_sum() == old(self).input_sum(),
            final(self).points_sum() == old(self).points_sum(),
            ({
                let m = old(self).model();
                if m.lines == 0 {
                    outcome matches Err(error) && invalid_model(error, "real fixture is empty"@)
                } else if m.batch.len() > 0 || m.transaction.len() > 0 {
                    &&& outcome matches Ok(Some(t))
                    &&& t.deep_view() == m.transaction.push(RecordModel::Points(m.batch))
                    &&& final(self).model() == (LoadModel {
                        transaction: Seq::empty(),
                        batch: Seq::empty(),
                        ..m
                    })
                } else {
                    outcome matches Ok(None) && final(self).model() == m
                }
            }),
    {
        let ghost m = self.model();
        if self.lines == 0 {
            return Err(Error::InvalidModel("real fixture is empty".to_owned()));
        }
        if self.batch.len() > 0 || !self.transaction.is_empty() {
            let mut batch: Vec<Point> = Vec::new();
            std::mem::swap(&mut batch, &mut self.batch);
            let mut transaction = Transaction::new();
            std::mem::swap(&mut transaction, &mut self.transaction);
            transaction.append_points(batch);
            assert(self.batch@ =~= Seq::<Point>::empty());
            assert(self.model() =~= (LoadModel {
                transaction: Seq::empty(),
                batch: Seq::empty(),
                ..m
            }));
            return Ok(Some(transaction));
        }
        Ok(None)
    }

    /// What has been loaded.
    pub fn report(&self) -> (report: RealFixtureLoadReport)
        ensures
            report.points == self.model().points,
            report.commits == self.model().commits,
            report.commits_durable_immediately == self.model().durable_commits,
            report.entities == self.model().drivers.len(),
            report.series == self.model().owners.dom().len(),
            report.input_bytes == self.model().input_bytes,
            report.input_crc32 == self.input_sum(),
            report.points_crc32 == self.points_sum(),
            report.first_offset_millis == match self.model().first_offset {
                Some(offset) => offset,
                None => 0,
            },
            report.last_offset_millis == match self.model().last_offset {
                Some(offset) => offset,
                None => 0,
            },
    {
        broadcast use group_btree_axioms;

        RealFixtureLoadReport {
            points: self.points,
            commits: self.commits,
            commits_durable_immediately: self.durable_commits,
            entities: self.drivers.len(),
            series: self.owners.len(),
            input_bytes: self.input_bytes,
            input_crc32: self.input_crc32,
            points_crc32: self.points_crc32,
            first_offset_millis: match self.first_offset {
                Some(offset) => offset,
                None => 0,
            },
            last_offset_millis: match self.last_offset {
                Some(offset) => offset,
                None => 0,
            },
        }
    }
}

} // verus!
