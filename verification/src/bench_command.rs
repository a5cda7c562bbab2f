//! Benchmark and maintenance commands: their options, and the lines that they print.
use crate::json_line::JsonLine;
#[allow(unused_imports)]
use crate::json_line::{
    bool_field, checksum_field, number_field, object_text, raw_field, signed_field, text_field,
};
use crate::real_fixture::RealFixtureLoadReport;
use crate::storage::Durability;
use crate::text::{put_decimal, same_text};
#[allow(unused_imports)]
use crate::text::decimal;
use crate::text_scan::{characters, characters_are, parse_signed, parse_unsigned, text_of};
#[allow(unused_imports)]
use crate::text_scan::{signed_value, unsigned_value};
use vstd::prelude::*;
use vstd::string::*;

verus! {

/// The texts of some arguments.
pub open spec fn argument_texts(arguments: Seq<String>) -> Seq<Seq<char>> {
    Seq::new(arguments.len(), |i: int| arguments[i]@)
}

/// Whether a text begins with another.
pub open spec fn begins_with(text: Seq<char>, front: Seq<char>) -> bool {
    text.len() >= front.len() && text.take(front.len() as int) == front
}

/// Whether some characters begin with a text.
fn has_front(letters: &[char], front: &str) -> (yes: bool)
    ensures
        yes == begins_with(letters@, front@),
{
    let n: usize = characters(front).len();
    if letters.len() < n {
        return false;
    }
    let head = vstd::slice::slice_subrange(letters, 0, n);
    assert(head@ =~= letters@.take(n as int));
    characters_are(head, front)
}

/// A text without its fronts: as often as it begins with one, that is taken away.
pub open spec fn without_fronts(text: Seq<char>, front: Seq<char>) -> Seq<char>
    decreases text.len(),
{
    if front.len() > 0 && begins_with(text, front) {
        without_fronts(text.skip(front.len() as int), front)
    } else {
        text
    }
}

fn strip_fronts(text: &[char], front: &str) -> (rest: Vec<char>)
    ensures
        rest@ == without_fronts(text@, front@),
    decreases text@.len(),
{
    let n: usize = characters(front).len();
    if n > 0 && has_front(text, front) {
        let rest = vstd::slice::slice_subrange(text, n, text.len());
        assert(rest@ =~= text@.skip(n as int));
        strip_fronts(rest, front)
    } else {
        let mut rest: Vec<char> = Vec::new();
        let mut i: usize = 0;
        while i < text.len()
            invariant
                i <= text@.len(),
                rest@ == text@.take(i as int),
            decreases text@.len() - i,
        {
            rest.push(text[i]);
            i = i + 1;
            assert(rest@ =~= text@.take(i as int));
        }
        assert(text@.take(text@.len() as int) =~= text@);
        rest
    }
}

/// The name of a durability, as it is given and reported.
pub open spec fn durability_text(durability: Durability) -> Seq<char> {
    match durability {
        Durability::Always => "always"@,
        Durability::Manual => "manual"@,
        Durability::EveryBytes(bytes) => "every-bytes:"@ + decimal(bytes as nat),
    }
}

pub fn durability_name(durability: Durability) -> (name: String)
    ensures
        name@ == durability_text(durability),
{
    match durability {
        Durability::Always => "always".to_owned(),
        Durability::Manual => "manual".to_owned(),
        Durability::EveryBytes(bytes) => {
            let mut name = "every-bytes:".to_owned();
            put_decimal(&mut name, bytes as u128);
            name
        },
    }
}

#[derive(Clone, Copy, Debug, PartialEq, Eq, Structural)]
pub enum BenchCommand {
    Ftwdb,
    RealFixture,
    TsbsIot,
}

#[derive(Debug, PartialEq, Eq)]
pub struct BenchOptions {
    pub durability: Durability,
    /// How many points, or rows, go into one commit.
    pub batch: usize,
    pub ack_log: Option<String>,
}

/// What options hold.
pub struct BenchModel {
    pub durability: Durability,
    pub batch: usize,
    pub ack_log: Option<Seq<char>>,
}

impl View for BenchOptions {
    type V = BenchModel;

    open spec fn view(&self) -> BenchModel {
        BenchModel {
            durability: self.durability,
            batch: self.batch,
            ack_log: match self.ack_log {
                None => None,
                Some(path) => Some(path@),
            },
        }
    }
}

/// What is said of a value that cannot be read.
pub open spec fn invalid_value(option: Seq<char>, value: Seq<char>) -> Seq<char> {
    "invalid value for "@ + option + ": "@ + value
}

fn invalid_value_text(option: &str, value: &str) -> (text: String)
    ensures
        text@ == invalid_value(option@, value@),
{
    let mut text = "invalid value for ".to_owned();
    text.append(option);
    text.append(": ");
    text.append(value);
    text
}

/// A count in decimal.
pub open spec fn count_of(text: Seq<char>) -> Option<usize> {
    match unsigned_value(text) {
        Ok(n) => if n <= usize::MAX {
            Some(n as usize)
        } else {
            None
        },
        Err(_) => None,
    }
}

fn parse_count(text: &str) -> (count: Option<usize>)
    ensures
        count == count_of(text@),
{
    match parse_unsigned(characters(text).as_slice()) {
        Ok(n) => if n <= usize::MAX as u64 {
            Some(n as usize)
        } else {
            None
        },
        Err(_) => None,
    }
}

/// The threshold in a durability of so many bytes, or what is said of it.
pub open spec fn every_bytes_of(value: Seq<char>) -> Result<u64, Seq<char>> {
    let rest = without_fronts(value, "every-bytes:"@);
    match unsigned_value(rest) {
        Err(_) => Err(invalid_value("--durability every-bytes"@, rest)),
        Ok(n) => if n == 0 {
            Err("--durability every-bytes threshold must be positive"@)
        } else {
            Ok(n as u64)
        },
    }
}

pub fn parse_every_bytes(value: &str) -> (outcome: Result<u64, String>)
    ensures
        match outcome {
            Ok(bytes) => every_bytes_of(value@) == Ok::<u64, Seq<char>>(bytes),
            Err(text) => every_bytes_of(value@) == Err::<u64, _>(text@),
        },
{
    let rest = strip_fronts(characters(value).as_slice(), "every-bytes:");
    match parse_unsigned(rest.as_slice()) {
        Err(_) => Err(
            invalid_value_text("--durability every-bytes", text_of(rest.as_slice()).as_str()),
        ),
        Ok(bytes) => if bytes == 0 {
            Err("--durability every-bytes threshold must be positive".to_owned())
        } else {
            Ok(bytes)
        },
    }
}

/// The durability that a value names. Only loads take one of so many bytes.
pub open spec fn durability_of(command: BenchCommand, value: Seq<char>) -> Result<
    Durability,
    Seq<char>,
> {
    if value == "always"@ {
        Ok(Durability::Always)
    } else if value == "manual"@ {
        Ok(Durability::Manual)
    } else if command is Ftwdb {
        Err("durability must be always or manual"@)
    } else if begins_with(value, "every-bytes:"@) {
        match every_bytes_of(value) {
            Ok(bytes) => Ok(Durability::EveryBytes(bytes)),
            Err(text) => Err(text),
        }
    } else {
        Err("durability must be always, manual, or every-bytes:N"@)
    }
}

fn parse_durability(command: BenchCommand, value: &str) -> (outcome: Result<Durability, String>)
    ensures
        match outcome {
            Ok(durability) => durability_of(command, value@) == Ok::<_, Seq<char>>(durability),
            Err(text) => durability_of(command, value@) == Err::<Durability, _>(text@),
        },
{
    if same_text(value, "always") {
        return Ok(Durability::Always);
    }
    if same_text(value, "manual") {
        return Ok(Durability::Manual);
    }
    if command == BenchCommand::Ftwdb {
        return Err("durability must be always or manual".to_owned());
    }
    if has_front(characters(value).as_slice(), "every-bytes:") {
        match parse_every_bytes(value) {
            Ok(bytes) => Ok(Durability::EveryBytes(bytes)),
            Err(text) => Err(text),
        }
    } else {
        Err("durability must be always, manual, or every-bytes:N".to_owned())
    }
}

/// The option that sets how much goes into one commit.
pub open spec fn batch_option(command: BenchCommand) -> Seq<char> {
    if command is TsbsIot {
        "--batch-rows"@
    } else {
        "--batch-points"@
    }
}

/// What an option with its value sets, or what is said of it.
pub open spec fn bench_step(
    command: BenchCommand,
    options: BenchModel,
    option: Seq<char>,
    value: Seq<char>,
) -> Result<BenchModel, Seq<char>> {
    if option == batch_option(command) {
        match count_of(value) {
            Some(batch) => Ok(BenchModel { batch, ..options }),
            None => Err(invalid_value(option, value)),
        }
    } else if option == "--ack-log"@ && command is RealFixture {
        Ok(BenchModel { ack_log: Some(value), ..options })
    } else if option == "--durability"@ {
        match durability_of(command, value) {
            Ok(durability) => Ok(BenchModel { durability, ..options }),
            Err(text) => Err(text),
        }
    } else {
        Err("unknown benchmark option "@ + option)
    }
}

/// What options with their values set, one after the other. The first that is wrong
/// counts.
pub open spec fn bench_steps(
    command: BenchCommand,
    options: BenchModel,
    arguments: Seq<Seq<char>>,
) -> Result<BenchModel, Seq<char>>
    decreases arguments.len(),
{
    if arguments.len() == 0 {
        Ok(options)
    } else if arguments.len() == 1 {
        Err("missing value for "@ + arguments[0])
    } else {
        match bench_step(command, options, arguments[0], arguments[1]) {
            Ok(next) => bench_steps(command, next, arguments.skip(2)),
            Err(text) => Err(text),
        }
    }
}

/// What is said where the two directories or files of a command are missing.
pub open spec fn bench_usage(command: BenchCommand) -> Seq<char> {
    match command {
        BenchCommand::Ftwdb => "bench-ftwdb requires workload and empty database directories"@,
        BenchCommand::RealFixture =>
            "bench-real-fixture requires a points.csv.gz file and empty database directory"@,
        BenchCommand::TsbsIot =>
            "bench-tsbs-iot requires an input file (or -) and empty database directory"@,
    }
}

/// What is said of a batch that is empty or too large.
pub open spec fn batch_size_text(command: BenchCommand, maximum: usize) -> Seq<char> {
    (if command is TsbsIot {
        "batch-rows"@
    } else {
        "batch-points"@
    }) + " must be between 1 and "@ + decimal(maximum as nat)
}

/// The options of a command whose arguments are these, or what is said of them.
pub open spec fn bench_options_of(
    command: BenchCommand,
    arguments: Seq<Seq<char>>,
    maximum: usize,
) -> Result<BenchModel, Seq<char>> {
    if arguments.len() < 2 {
        Err(bench_usage(command))
    } else {
        match bench_steps(
            command,
            BenchModel { durability: Durability::Always, batch: 10_000, ack_log: None },
            arguments.skip(2),
        ) {
            Err(text) => Err(text),
            Ok(options) => if options.batch == 0 || options.batch > maximum {
                Err(batch_size_text(command, maximum))
            } else {
                Ok(options)
            },
        }
    }
}

fn apply_option(
    command: BenchCommand,
    options: &mut BenchOptions,
    option: &str,
    value: &str,
) -> (outcome: Result<(), String>)
    ensures
        match outcome {
            Ok(()) => bench_step(command, old(options)@, option@, value@) == Ok::<_, Seq<char>>(
                final(options)@,
            ),
            Err(text) => bench_step(command, old(options)@, option@, value@) == Err::<
                BenchModel,
                _,
            >(text@),
        },
{
    let batch = if command == BenchCommand::TsbsIot {
        "--batch-rows"
    } else {
        "--batch-points"
    };
    if same_text(option, batch) {
        match parse_count(value) {
            Some(count) => {
                options.batch = count;
                Ok(())
            },
            None => Err(invalid_value_text(option, value)),
        }
    } else if command == BenchCommand::RealFixture && same_text(option, "--ack-log") {
        options.ack_log = Some(value.to_owned());
        Ok(())
    } else if same_text(option, "--durability") {
        options.durability = parse_durability(command, value)?;
        Ok(())
    } else {
        let mut text = "unknown benchmark option ".to_owned();
        text.append(option);
        Err(text)
    }
}

/// The options of a benchmark, whose first two arguments say where it reads and writes.
#[verifier::loop_isolation(false)]
pub fn bench_options(command: BenchCommand, arguments: &Vec<String>, maximum: usize) -> (outcome:
    Result<BenchOptions, String>)
    ensures
        match outcome {
            Ok(options) => bench_options_of(command, argument_texts(arguments@), maximum) == Ok::<
                _,
                Seq<char>,
            >(options@),
            Err(text) => bench_options_of(command, argument_texts(arguments@), maximum) == Err::<
                BenchModel,
                _,
            >(text@),
        },
{
    let ghost all = argument_texts(arguments@);
    let total: usize = arguments.len();
    if total < 2 {
        let text = match command {
            BenchCommand::Ftwdb => "bench-ftwdb requires workload and empty database directories",
            BenchCommand::RealFixture =>
                "bench-real-fixture requires a points.csv.gz file and empty database directory",
            BenchCommand::TsbsIot =>
                "bench-tsbs-iot requires an input file (or -) and empty database directory",
        };
        return Err(text.to_owned());
    }
    let mut options = BenchOptions { durability: Durability::Always, batch: 10_000, ack_log: None };
    let ghost first = options@;
    let mut index: usize = 2;
    while index < total
        invariant
            2 <= index <= total,
            bench_steps(command, first, all.skip(2)) == bench_steps(
                command,
                options@,
                all.skip(index as int),
            ),
        decreases total - index,
    {
        let option = arguments[index].as_str();
        assert(all.skip(index as int)[0] == option@);
        if index + 1 >= total {
            let mut text = "missing value for ".to_owned();
            text.append(option);
            return Err(text);
        }
        let value = arguments[index + 1].as_str();
        proof {
            assert(all.skip(index as int)[1] == value@);
            assert(all.skip(index as int).skip(2) =~= all.skip(index + 2));
        }
        apply_option(command, &mut options, option, value)?;
        index = index + 2;
    }
    assert(all.skip(total as int).len() == 0);
    if options.batch == 0 || options.batch > maximum {
        let mut text = if command == BenchCommand::TsbsIot {
            "batch-rows".to_owned()
        } else {
            "batch-points".to_owned()
        };
        text.append(" must be between 1 and ");
        put_decimal(&mut text, maximum as u128);
        return Err(text);
    }
    Ok(options)
}

/// The line of the acknowledgement log for a commit.
pub fn ack_line(commits: u64, points: u64, durable: bool) -> (line: String)
    ensures
        line@ == object_text(
            seq![
                text_field("format"@, "ftwdb-ack-watermark-v1"@),
                number_field("commits"@, commits as nat),
                number_field("points"@, points as nat),
                bool_field("durable"@, durable),
            ],
        ),
{
    let mut line = JsonLine::new();
    line.text("format", "ftwdb-ack-watermark-v1");
    line.number("commits", commits as u128);
    line.number("points", points as u128);
    line.boolean("durable", durable);
    assert(line.fields() =~= seq![
        text_field("format"@, "ftwdb-ack-watermark-v1"@),
        number_field("commits"@, commits as nat),
        number_field("points"@, points as nat),
        bool_field("durable"@, durable),
    ]);
    line.finish()
}

/// How fast a load went and how much it stored. Seconds and rates are given as text.
#[derive(Debug, PartialEq, Eq)]
pub struct LoadMeasures {
    pub ingest_seconds: String,
    pub points_per_second: String,
    pub stored_bytes: u64,
    pub bytes_per_point: String,
}

/// The fields of the line for a fixture load.
pub open spec fn fixture_fields(
    options: BenchOptions,
    report: RealFixtureLoadReport,
    measures: LoadMeasures,
) -> Seq<Seq<char>> {
    seq![
        text_field("format"@, "ftwdb-real-fixture-load-v1"@),
        text_field("engine"@, "ftwdb"@),
        text_field("scope"@, "sanitized_real_installation_write"@),
        text_field("durability"@, durability_text(options.durability)),
        number_field("batch_points"@, options.batch as nat),
        number_field("points"@, report.points as nat),
        number_field("entities"@, report.entities as nat),
        number_field("series"@, report.series as nat),
        number_field("commits"@, report.commits as nat),
        number_field(
            "commits_durable_immediately"@,
            report.commits_durable_immediately as nat,
        ),
        number_field("input_bytes"@, report.input_bytes as nat),
        checksum_field("input_crc32"@, report.input_crc32),
        checksum_field("points_crc32"@, report.points_crc32),
        signed_field("first_offset_millis"@, report.first_offset_millis as int),
        signed_field("last_offset_millis"@, report.last_offset_millis as int),
        raw_field("ingest_seconds"@, measures.ingest_seconds@),
        raw_field("points_per_second"@, measures.points_per_second@),
        number_field("stored_bytes"@, measures.stored_bytes as nat),
        raw_field("bytes_per_point"@, measures.bytes_per_point@),
    ]
}

/// The line for a fixture load.
pub fn fixture_line(
    options: &BenchOptions,
    report: &RealFixtureLoadReport,
    measures: &LoadMeasures,
) -> (line: String)
    ensures
        line@ == object_text(fixture_fields(*options, *report, *measures)),
{
    let mut line = JsonLine::new();
    line.text("format", "ftwdb-real-fixture-load-v1");
    line.text("engine", "ftwdb");
    line.text("scope", "sanitized_real_installation_write");
    let name = durability_name(options.durability);
    line.text("durability", name.as_str());
    line.number("batch_points", options.batch as u128);
    line.number("points", report.points as u128);
    line.number("entities", report.entities as u128);
    line.number("series", report.series as u128);
    line.number("commits", report.commits as u128);
    line.number("commits_durable_immediately", report.commits_durable_immediately as u128);
    line.number("input_bytes", report.input_bytes as u128);
    line.checksum("input_crc32", report.input_crc32);
    line.checksum("points_crc32", report.points_crc32);
    line.signed("first_offset_millis", report.first_offset_millis);
    line.signed("last_offset_millis", report.last_offset_millis);
    line.raw("ingest_seconds", measures.ingest_seconds.as_str());
    line.raw("points_per_second", measures.points_per_second.as_str());
    line.number("stored_bytes", measures.stored_bytes as u128);
    line.raw("bytes_per_point", measures.bytes_per_point.as_str());
    assert(line.fields() =~= fixture_fields(*options, *report, *measures));
    line.finish()
}

/// What a load of line-protocol rows counted.
#[derive(Clone, Copy, Debug, PartialEq, Eq, Structural)]
pub struct RowLoad {
    pub rows: u64,
    pub points: u64,
    pub entities: u64,
    pub series: u64,
    pub commits: u64,
    pub commits_durable_immediately: u64,
    pub input_bytes: u64,
    pub input_crc32: u32,
    pub points_crc32: u32,
}

/// The fields of the line for a load of rows.
pub open spec fn rows_fields(
    options: BenchOptions,
    load: RowLoad,
    rows_per_second: Seq<char>,
    measures: LoadMeasures,
) -> Seq<Seq<char>> {
    seq![
        text_field("format"@, "ftwdb-tsbs-iot-load-v1"@),
        text_field("engine"@, "ftwdb"@),
        text_field("scope"@, "tsbs_iot_write"@),
        text_field("durability"@, durability_text(options.durability)),
        number_field("batch_rows"@, options.batch as nat),
        number_field("rows"@, load.rows as nat),
        number_field("points"@, load.points as nat),
        number_field("entities"@, load.entities as nat),
        number_field("series"@, load.series as nat),
        number_field("commits"@, load.commits as nat),
        number_field("commits_durable_immediately"@, load.commits_durable_immediately as nat),
        number_field("input_bytes"@, load.input_bytes as nat),
        checksum_field("input_crc32"@, load.input_crc32),
        checksum_field("points_crc32"@, load.points_crc32),
        raw_field("ingest_seconds"@, measures.ingest_seconds@),
        raw_field("rows_per_second"@, rows_per_second),
        raw_field("points_per_second"@, measures.points_per_second@),
        number_field("stored_bytes"@, measures.stored_bytes as nat),
        raw_field("bytes_per_point"@, measures.bytes_per_point@),
    ]
}

/// The line for a load of rows.
pub fn rows_line(
    options: &BenchOptions,
    load: &RowLoad,
    rows_per_second: &str,
    measures: &LoadMeasures,
) -> (line: String)
    ensures
        line@ == object_text(rows_fields(*options, *load, rows_per_second@, *measures)),
{
    let mut line = JsonLine::new();
    line.text("format", "ftwdb-tsbs-iot-load-v1");
    line.text("engine", "ftwdb");
    line.text("scope", "tsbs_iot_write");
    let name = durability_name(options.durability);
    line.text("durability", name.as_str());
    line.number("batch_rows", options.batch as u128);
    line.number("rows", load.rows as u128);
    line.number("points", load.points as u128);
    line.number("entities", load.entities as u128);
    line.number("series", load.series as u128);
    line.number("commits", load.commits as u128);
    line.number("commits_durable_immediately", load.commits_durable_immediately as u128);
    line.number("input_bytes", load.input_bytes as u128);
    line.checksum("input_crc32", load.input_crc32);
    line.checksum("points_crc32", load.points_crc32);
    line.raw("ingest_seconds", measures.ingest_seconds.as_str());
    line.raw("rows_per_second", rows_per_second);
    line.raw("points_per_second", measures.points_per_second.as_str());
    line.number("stored_bytes", measures.stored_bytes as u128);
    line.raw("bytes_per_point", measures.bytes_per_point.as_str());
    assert(line.fields() =~= rows_fields(*options, *load, rows_per_second@, *measures));
    line.finish()
}

/// What a benchmark of the store measured. Seconds and rates are given as text.
#[derive(Debug, PartialEq, Eq)]
pub struct StoreBench {
    pub dataset_crc32: u32,
    pub result_crc32: u32,
    pub points: u64,
    pub ingest_seconds: String,
    pub points_per_second: String,
    pub maintenance_seconds: String,
    pub rollup_files_written: u64,
    pub cold_query_seconds: String,
    pub warm_query_seconds: String,
    pub query_buckets: u64,
    pub stored_bytes: u64,
}

/// The fields of the line for a benchmark of the store.
pub open spec fn bench_fields(options: BenchOptions, bench: StoreBench) -> Seq<Seq<char>> {
    seq![
        text_field("format"@, "ftwdb-benchmark-result-v1"@),
        text_field("engine"@, "ftwdb"@),
        text_field("durability"@, durability_text(options.durability)),
        checksum_field("dataset_crc32"@, bench.dataset_crc32),
        checksum_field("result_crc32"@, bench.result_crc32),
        number_field("points"@, bench.points as nat),
        number_field("batch_points"@, options.batch as nat),
        raw_field("ingest_seconds"@, bench.ingest_seconds@),
        raw_field("points_per_second"@, bench.points_per_second@),
        raw_field("maintenance_seconds"@, bench.maintenance_seconds@),
        number_field("rollup_files_written"@, bench.rollup_files_written as nat),
        raw_field("cold_query_seconds"@, bench.cold_query_seconds@),
        raw_field("warm_query_seconds"@, bench.warm_query_seconds@),
        number_field("query_buckets"@, bench.query_buckets as nat),
        number_field("stored_bytes"@, bench.stored_bytes as nat),
    ]
}

/// The line for a benchmark of the store.
pub fn bench_line(options: &BenchOptions, bench: &StoreBench) -> (line: String)
    ensures
        line@ == object_text(bench_fields(*options, *bench)),
{
    let mut line = JsonLine::new();
    line.text("format", "ftwdb-benchmark-result-v1");
    line.text("engine", "ftwdb");
    let name = durability_name(options.durability);
    line.text("durability", name.as_str());
    line.checksum("dataset_crc32", bench.dataset_crc32);
    line.checksum("result_crc32", bench.result_crc32);
    line.number("points", bench.points as u128);
    line.number("batch_points", options.batch as u128);
    line.raw("ingest_seconds", bench.ingest_seconds.as_str());
    line.raw("points_per_second", bench.points_per_second.as_str());
    line.raw("maintenance_seconds", bench.maintenance_seconds.as_str());
    line.number("rollup_files_written", bench.rollup_files_written as u128);
    line.raw("cold_query_seconds", bench.cold_query_seconds.as_str());
    line.raw("warm_query_seconds", bench.warm_query_seconds.as_str());
    line.number("query_buckets", bench.query_buckets as u128);
    line.number("stored_bytes", bench.stored_bytes as u128);
    assert(line.fields() =~= bench_fields(*options, *bench));
    line.finish()
}

// Generated workloads.

/// A setting of a generated workload.
#[derive(Clone, Copy, Debug, PartialEq, Eq, Structural)]
pub enum WorkloadSetting {
    Seed,
    Sites,
    Days,
    CadenceSeconds,
    StartMicros,
}

/// The setting that an option stands for, if it stands for one.
pub open spec fn setting_of(option: Seq<char>) -> Option<WorkloadSetting> {
    if option == "--seed"@ {
        Some(WorkloadSetting::Seed)
    } else if option == "--sites"@ {
        Some(WorkloadSetting::Sites)
    } else if option == "--days"@ {
        Some(WorkloadSetting::Days)
    } else if option == "--cadence-seconds"@ {
        Some(WorkloadSetting::CadenceSeconds)
    } else if option == "--start-micros"@ {
        Some(WorkloadSetting::StartMicros)
    } else {
        None
    }
}

impl WorkloadSetting {
    /// The option that stands for the setting.
    pub fn option(self) -> (name: &'static str)
        ensures
            setting_of(name@) == Some(self),
    {
        proof {
            reveal_strlit("--seed");
            reveal_strlit("--sites");
            reveal_strlit("--days");
            reveal_strlit("--cadence-seconds");
            reveal_strlit("--start-micros");
            assert("--seed"@[3] == 'e' && "--sites"@[3] == 'i' && "--start-micros"@[3] == 't');
            assert("--days"@[2] == 'd' && "--cadence-seconds"@[2] == 'c');
            assert("--seed"@[2] == 's' && "--sites"@[2] == 's' && "--start-micros"@[2] == 's');
        }
        match self {
            WorkloadSetting::Seed => "--seed",
            WorkloadSetting::Sites => "--sites",
            WorkloadSetting::Days => "--days",
            WorkloadSetting::CadenceSeconds => "--cadence-seconds",
            WorkloadSetting::StartMicros => "--start-micros",
        }
    }
}

fn workload_setting(option: &str) -> (setting: Option<WorkloadSetting>)
    ensures
        setting == setting_of(option@),
{
    if same_text(option, "--seed") {
        Some(WorkloadSetting::Seed)
    } else if same_text(option, "--sites") {
        Some(WorkloadSetting::Sites)
    } else if same_text(option, "--days") {
        Some(WorkloadSetting::Days)
    } else if same_text(option, "--cadence-seconds") {
        Some(WorkloadSetting::CadenceSeconds)
    } else if same_text(option, "--start-micros") {
        Some(WorkloadSetting::StartMicros)
    } else {
        None
    }
}

/// The settings among some arguments, in their order, up to the first argument that is
/// wrong, and what is wrong with it.
pub open spec fn settings_in(arguments: Seq<Seq<char>>) -> (
    Seq<(WorkloadSetting, Seq<char>)>,
    Option<Seq<char>>,
)
    decreases arguments.len(),
{
    if arguments.len() == 0 {
        (Seq::empty(), None)
    } else if arguments.len() == 1 {
        (Seq::empty(), Some("missing value for "@ + arguments[0]))
    } else {
        match setting_of(arguments[0]) {
            None => (Seq::empty(), Some("unknown generate option "@ + arguments[0])),
            Some(setting) => {
                let (rest, fault) = settings_in(arguments.skip(2));
                (seq![(setting, arguments[1])] + rest, fault)
            },
        }
    }
}

/// Settings with their values as texts.
pub open spec fn setting_texts(settings: Seq<(WorkloadSetting, String)>) -> Seq<
    (WorkloadSetting, Seq<char>),
> {
    Seq::new(settings.len(), |i: int| (settings[i].0, settings[i].1@))
}

/// What `generate` was asked to do. The settings hold in their order, and a fault counts
/// behind them.
#[derive(Debug, PartialEq, Eq)]
pub struct GenerateOptions {
    pub output: String,
    pub settings: Vec<(WorkloadSetting, String)>,
    pub fault: Option<String>,
}

#[verifier::loop_isolation(false)]
pub fn generate_options(arguments: &Vec<String>) -> (outcome: Result<GenerateOptions, String>)
    ensures
        if arguments@.len() == 0 {
            outcome matches Err(said) && said@ == "generate requires an output directory"@
        } else {
            outcome matches Ok(options) && options.output@ == arguments@[0]@ && ({
                let (settings, fault) = settings_in(argument_texts(arguments@).skip(1));
                setting_texts(options.settings@) == settings && match options.fault {
                    Some(said) => fault == Some(said@),
                    None => fault is None,
                }
            })
        },
{
    if arguments.len() == 0 {
        return Err("generate requires an output directory".to_owned());
    }
    let ghost all = argument_texts(arguments@);
    let ghost whole = settings_in(all.skip(1));
    let total: usize = arguments.len();
    let mut settings: Vec<(WorkloadSetting, String)> = Vec::new();
    let mut fault: Option<String> = None;
    let mut index: usize = 1;
    assert(setting_texts(settings@) + settings_in(all.skip(1)).0 =~= whole.0);
    while index < total && fault.is_none()
        invariant
            1 <= index <= total,
            match fault {
                Some(said) => whole == (setting_texts(settings@), Some(said@)),
                None => whole == (
                    setting_texts(settings@) + settings_in(all.skip(index as int)).0,
                    settings_in(all.skip(index as int)).1,
                ),
            },
        decreases
            total - index,
            if fault is None {
                1int
            } else {
                0int
            },
    {
        let option = arguments[index].as_str();
        let ghost rest = all.skip(index as int);
        let ghost before = setting_texts(settings@);
        assert(rest[0] == option@);
        if index + 1 >= total {
            let mut text = "missing value for ".to_owned();
            text.append(option);
            assert(before + Seq::empty() =~= before);
            fault = Some(text);
        } else {
            let value = arguments[index + 1].as_str();
            assert(rest[1] == value@);
            match workload_setting(option) {
                None => {
                    let mut text = "unknown generate option ".to_owned();
                    text.append(option);
                    assert(before + Seq::empty() =~= before);
                    fault = Some(text);
                },
                Some(setting) => {
                    settings.push((setting, value.to_owned()));
                    proof {
                        assert(rest.skip(2) =~= all.skip(index + 2));
                        assert(setting_texts(settings@) =~= before + seq![(setting, value@)]);
                        assert(before + (seq![(setting, value@)] + settings_in(rest.skip(2)).0)
                            =~= setting_texts(settings@) + settings_in(rest.skip(2)).0);
                    }
                    index = index + 2;
                },
            }
        }
    }
    proof {
        if fault is None {
            assert(all.skip(index as int).len() == 0);
            assert(setting_texts(settings@) + Seq::empty() =~= setting_texts(settings@));
        }
    }
    Ok(GenerateOptions { output: arguments[0].clone(), settings, fault })
}

// Maintenance and salvage.

/// What `maintain` was asked to do.
#[derive(Debug, PartialEq, Eq)]
pub struct MaintainOptions {
    pub store: String,
    pub now_micros: Option<i64>,
}

/// What the arguments of `maintain` say so far: the store, and the time.
pub open spec fn maintain_steps(
    store: Option<Seq<char>>,
    now: Option<i64>,
    arguments: Seq<Seq<char>>,
) -> Result<(Option<Seq<char>>, Option<i64>), Seq<char>>
    decreases arguments.len(),
{
    if arguments.len() == 0 {
        Ok((store, now))
    } else if arguments[0] == "--now-micros"@ {
        if arguments.len() == 1 {
            Err("maintain --now-micros requires a value"@)
        } else {
            match signed_value(arguments[1]) {
                Ok(n) => maintain_steps(store, Some(n as i64), arguments.skip(2)),
                Err(_) => Err(invalid_value("--now-micros"@, arguments[1])),
            }
        }
    } else if begins_with(arguments[0], "--"@) {
        Err("maintain does not support "@ + arguments[0])
    } else if store is Some {
        Err("maintain accepts one store directory"@)
    } else {
        maintain_steps(Some(arguments[0]), now, arguments.skip(1))
    }
}

#[verifier::loop_isolation(false)]
pub fn maintain_options(arguments: &Vec<String>) -> (outcome: Result<MaintainOptions, String>)
    ensures
        match maintain_steps(None, None, argument_texts(arguments@)) {
            Err(text) => outcome matches Err(said) && said@ == text,
            Ok((None, _)) => outcome matches Err(said) && said@
                == "maintain requires one store directory"@,
            Ok((Some(store), now)) => outcome matches Ok(options) && options.store@ == store
                && options.now_micros == now,
        },
{
    let ghost all = argument_texts(arguments@);
    let total: usize = arguments.len();
    let mut store: Option<String> = None;
    let mut now: Option<i64> = None;
    let mut index: usize = 0;
    assert(all.skip(0) =~= all);
    while index < total
        invariant
            index <= total,
            maintain_steps(None, None, all) == maintain_steps(
                match store {
                    None => None,
                    Some(path) => Some(path@),
                },
                now,
                all.skip(index as int),
            ),
        decreases total - index,
    {
        let argument = arguments[index].as_str();
        assert(all.skip(index as int)[0] == argument@);
        if same_text(argument, "--now-micros") {
            if index + 1 >= total {
                return Err("maintain --now-micros requires a value".to_owned());
            }
            let value = arguments[index + 1].as_str();
            proof {
                assert(all.skip(index as int)[1] == value@);
                assert(all.skip(index as int).skip(2) =~= all.skip(index + 2));
            }
            match parse_signed(characters(value).as_slice()) {
                Ok(micros) => {
                    now = Some(micros);
                },
                Err(_) => {
                    return Err(invalid_value_text("--now-micros", value));
                },
            }
            index = index + 2;
        } else if has_front(characters(argument).as_slice(), "--") {
            let mut text = "maintain does not support ".to_owned();
            text.append(argument);
            return Err(text);
        } else {
            if store.is_some() {
                return Err("maintain accepts one store directory".to_owned());
            }
            assert(all.skip(index as int).skip(1) =~= all.skip(index + 1));
            store = Some(argument.to_owned());
            index = index + 1;
        }
    }
    assert(all.skip(total as int).len() == 0);
    match store {
        None => Err("maintain requires one store directory".to_owned()),
        Some(store) => Ok(MaintainOptions { store, now_micros: now }),
    }
}

/// What `salvage` was asked to do.
#[derive(Debug, PartialEq, Eq)]
pub struct SalvageOptions {
    pub source: String,
    pub target: String,
    pub drop_orphan_segments: bool,
}

/// The places and the switch that the arguments of `salvage` give, or the first that it
/// does not support.
pub open spec fn salvage_steps(arguments: Seq<Seq<char>>) -> Result<
    (Seq<Seq<char>>, bool),
    Seq<char>,
>
    decreases arguments.len(),
{
    if arguments.len() == 0 {
        Ok((Seq::empty(), false))
    } else {
        match salvage_steps(arguments.drop_last()) {
            Err(text) => Err(text),
            Ok((places, drop_orphans)) => if arguments.last() == "--drop-orphan-segments"@ {
                Ok((places, true))
            } else if begins_with(arguments.last(), "--"@) {
                Err("salvage does not support "@ + arguments.last())
            } else {
                Ok((places.push(arguments.last()), drop_orphans))
            },
        }
    }
}

proof fn lemma_salvage_fault(arguments: Seq<Seq<char>>, n: int)
    requires
        0 <= n <= arguments.len(),
        salvage_steps(arguments.take(n)) is Err,
    ensures
        salvage_steps(arguments) == salvage_steps(arguments.take(n)),
    decreases arguments.len(),
{
    if n == arguments.len() {
        assert(arguments.take(n) =~= arguments);
    } else {
        assert(arguments.drop_last().take(n) =~= arguments.take(n));
        lemma_salvage_fault(arguments.drop_last(), n);
    }
}

#[verifier::loop_isolation(false)]
pub fn salvage_options(arguments: &Vec<String>) -> (outcome: Result<SalvageOptions, String>)
    ensures
        match salvage_steps(argument_texts(arguments@)) {
            Err(text) => outcome matches Err(said) && said@ == text,
            Ok((places, drop_orphans)) => if places.len() == 2 {
                outcome matches Ok(options) && options.source@ == places[0] && options.target@
                    == places[1] && options.drop_orphan_segments == drop_orphans
            } else {
                outcome matches Err(said) && said@
                    == "salvage requires a damaged store and absent target directory"@
            },
        },
{
    let ghost all = argument_texts(arguments@);
    let total: usize = arguments.len();
    let mut places: Vec<String> = Vec::new();
    let mut drop_orphan_segments: bool = false;
    let mut index: usize = 0;
    assert(argument_texts(places@) =~= Seq::<Seq<char>>::empty());
    while index < total
        invariant
            index <= total,
            salvage_steps(all.take(index as int)) == Ok::<_, Seq<char>>(
                (argument_texts(places@), drop_orphan_segments),
            ),
        decreases total - index,
    {
        let argument = arguments[index].as_str();
        proof {
            assert(all.take(index + 1).drop_last() =~= all.take(index as int));
            assert(all.take(index + 1).last() == argument@);
        }
        if same_text(argument, "--drop-orphan-segments") {
            drop_orphan_segments = true;
        } else if has_front(characters(argument).as_slice(), "--") {
            proof {
                lemma_salvage_fault(all, index + 1);
            }
            let mut text = "salvage does not support ".to_owned();
            text.append(argument);
            return Err(text);
        } else {
            let ghost before = places@;
            places.push(argument.to_owned());
            assert(argument_texts(places@) =~= argument_texts(before).push(argument@));
        }
        index = index + 1;
    }
    assert(all.take(total as int) =~= all);
    if places.len() != 2 {
        return Err("salvage requires a damaged store and absent target directory".to_owned());
    }
    let target = places.remove(1);
    let source = places.remove(0);
    Ok(SalvageOptions { source, target, drop_orphan_segments })
}

/// Where a workload ends that begins at `start` and lasts some days, in microseconds.
pub fn workload_end(start: i64, days: u32) -> (outcome: Result<i64, &'static str>)
    ensures
        if start + days * 86_400_000_000 <= i64::MAX {
            outcome matches Ok(end) && end == start + days * 86_400_000_000
        } else {
            outcome matches Err(text) && text@ == "workload end timestamp overflow"@
        },
{
    let end: i128 = start as i128 + days as i128 * 86_400_000_000;
    if end > i64::MAX as i128 {
        return Err("workload end timestamp overflow");
    }
    Ok(end as i64)
}

/// The checksum of a query that was made twice, which must be the same both times.
pub fn repeated_checksum(cold: u32, warm: u32) -> (outcome: Result<u32, &'static str>)
    ensures
        if cold == warm {
            outcome == Ok::<u32, &'static str>(cold)
        } else {
            outcome matches Err(text) && text@ == "cold and warm rollup query results differ"@
        },
{
    if warm != cold {
        return Err("cold and warm rollup query results differ");
    }
    Ok(cold)
}

} // verus!
