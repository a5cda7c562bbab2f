//! Reports of fault runs: what a writer was promised, and what was recovered.
use crate::json::{find_member, json_members, JsonValue, Members};
#[allow(unused_imports)]
use crate::json::{
    is_json_of, json_members_of, member_of, members_model, JsonModel, MembersModel,
};
use crate::model::FloatBits;
use crate::text::{is_blank, put_decimal, same_text};
#[allow(unused_imports)]
use crate::text::{blank, decimal};
use crate::text_scan::{
    characters, lines, parse_unsigned, split, text_of, trim, IntegerFault,
};
#[allow(unused_imports)]
use crate::text_scan::{
    fault_text, lemma_some_piece, lines_of, pieces, texts, trimmed, unsigned_value,
};
use vstd::prelude::*;
use vstd::string::*;

verus! {

/// Why a run cannot be judged.
#[derive(Debug, PartialEq, Eq)]
pub enum VerifyError {
    /// What the operating system said.
    Io(String),
    /// What the JSON reader said.
    Json(String),
    Invalid(String),
}

/// What a verification error holds.
pub enum VerifyFault {
    Io(Seq<char>),
    Json(Seq<char>),
    Invalid(Seq<char>),
}

impl View for VerifyError {
    type V = VerifyFault;

    open spec fn view(&self) -> VerifyFault {
        match *self {
            VerifyError::Io(reason) => VerifyFault::Io(reason@),
            VerifyError::Json(reason) => VerifyFault::Json(reason@),
            VerifyError::Invalid(reason) => VerifyFault::Invalid(reason@),
        }
    }
}

/// What a verification error says.
pub open spec fn verify_text(fault: VerifyFault) -> Seq<char> {
    match fault {
        VerifyFault::Io(reason) => "I/O error: "@ + reason,
        VerifyFault::Json(reason) => "JSON error: "@ + reason,
        VerifyFault::Invalid(reason) => reason,
    }
}

impl VerifyError {
    /// What the error says.
    pub fn message(&self) -> (text: String)
        ensures
            text@ == verify_text(self@),
    {
        let mut text = String::new();
        match self {
            VerifyError::Io(reason) => {
                text.append("I/O error: ");
                text.append(reason.as_str());
            },
            VerifyError::Json(reason) => {
                text.append("JSON error: ");
                text.append(reason.as_str());
            },
            VerifyError::Invalid(reason) => {
                text.append(reason.as_str());
            },
        }
        assert(text@ =~= verify_text(self@));
        text
    }
}

fn invalid(reason: &str) -> (error: VerifyError)
    ensures
        error@ == VerifyFault::Invalid(reason@),
{
    VerifyError::Invalid(reason.to_owned())
}

/// What a missing field is reported as.
pub open spec fn missing(kind: Seq<char>, field: Seq<char>) -> VerifyFault {
    VerifyFault::Invalid("missing "@ + kind + " field \""@ + field + "\""@)
}

fn missing_field(kind: &str, field: &str) -> (error: VerifyError)
    ensures
        error@ == missing(kind@, field@),
{
    let mut text = String::new();
    text.append("missing ");
    text.append(kind);
    text.append(" field \"");
    text.append(field);
    text.append("\"");
    assert(text@ =~= "missing "@ + kind@ + " field \""@ + field@ + "\""@);
    VerifyError::Invalid(text)
}

/// The unsigned number under a name.
pub open spec fn unsigned_of(members: MembersModel, field: Seq<char>) -> Result<u64, VerifyFault> {
    match member_of(members, field) {
        Some(JsonModel::Number(Some(n))) => Ok(n),
        _ => Err(missing("unsigned"@, field)),
    }
}

/// The text under a name.
pub open spec fn string_of(members: MembersModel, field: Seq<char>) -> Result<Seq<char>, VerifyFault> {
    match member_of(members, field) {
        Some(JsonModel::Text(t)) => Ok(t),
        _ => Err(missing("string"@, field)),
    }
}

fn unsigned(members: &Members, field: &str) -> (out: Result<u64, VerifyError>)
    ensures
        match unsigned_of(members_model(members@), field@) {
            Ok(n) => out == Ok::<u64, VerifyError>(n),
            Err(fault) => out matches Err(error) && error@ == fault,
        },
{
    match find_member(members, field) {
        Some(JsonValue::Number(Some(n))) => Ok(*n),
        _ => Err(missing_field("unsigned", field)),
    }
}

fn string(members: &Members, field: &str) -> (out: Result<String, VerifyError>)
    ensures
        match string_of(members_model(members@), field@) {
            Ok(t) => out matches Ok(text) && text@ == t,
            Err(fault) => out matches Err(error) && error@ == fault,
        },
{
    match find_member(members, field) {
        Some(JsonValue::Text(t)) => Ok(t.clone()),
        _ => Err(missing_field("string", field)),
    }
}

pub open spec fn optional_unsigned_of(members: MembersModel, field: Seq<char>) -> Option<u64> {
    match member_of(members, field) {
        Some(JsonModel::Number(Some(n))) => Some(n),
        _ => None,
    }
}

pub open spec fn optional_string_of(members: MembersModel, field: Seq<char>) -> Option<Seq<char>> {
    match member_of(members, field) {
        Some(JsonModel::Text(t)) => Some(t),
        _ => None,
    }
}

fn optional_unsigned(members: &Members, field: &str) -> (out: Option<u64>)
    ensures
        out == optional_unsigned_of(members_model(members@), field@),
{
    match find_member(members, field) {
        Some(JsonValue::Number(Some(n))) => Some(*n),
        _ => None,
    }
}

fn optional_string(members: &Members, field: &str) -> (out: Option<String>)
    ensures
        match optional_string_of(members_model(members@), field@) {
            Some(t) => out matches Some(text) && text@ == t,
            None => out is None,
        },
{
    match find_member(members, field) {
        Some(JsonValue::Text(t)) => Some(t.clone()),
        _ => None,
    }
}

/// What a writer has been told of so far: how many commits and points there are, and
/// whether they are durable.
#[derive(Clone, Copy, Debug, PartialEq, Eq, Structural)]
pub struct AckWatermark {
    pub commits: u64,
    pub points: u64,
    pub durable: bool,
}

/// What a log of acknowledgements has shown so far.
#[derive(Clone, Copy, Debug, PartialEq, Eq, Structural)]
pub struct AckProgress {
    pub previous: Option<AckWatermark>,
    pub last_durable: Option<AckWatermark>,
}

/// What is wrong with a line of the log.
pub open spec fn ack_fault(line: nat, reason: Seq<char>) -> VerifyFault {
    VerifyFault::Invalid("ack log line "@ + decimal(line) + reason)
}

fn ack_failure(line: u64, reason: &str) -> (error: VerifyError)
    ensures
        error@ == ack_fault(line as nat, reason@),
{
    let mut text = String::new();
    text.append("ack log line ");
    put_decimal(&mut text, line as u128);
    text.append(reason);
    assert(text@ =~= "ack log line "@ + decimal(line as nat) + reason@);
    VerifyError::Invalid(text)
}

/// The watermark that the members of a line give.
pub open spec fn watermark_of(line: nat, members: MembersModel) -> Result<AckWatermark, VerifyFault> {
    match string_of(members, "format"@) {
        Err(fault) => Err(fault),
        Ok(format) => if format != "ftwdb-ack-watermark-v1"@ {
            Err(ack_fault(line, " has the wrong format"@))
        } else {
            match member_of(members, "durable"@) {
                Some(JsonModel::Bool(durable)) => match unsigned_of(members, "commits"@) {
                    Err(fault) => Err(fault),
                    Ok(commits) => match unsigned_of(members, "points"@) {
                        Err(fault) => Err(fault),
                        Ok(points) => Ok(AckWatermark { commits, points, durable }),
                    },
                },
                _ => Err(ack_fault(line, " lacks a boolean durable field"@)),
            }
        },
    }
}

/// Whether a watermark goes back behind the one before it.
pub open spec fn regresses(previous: Option<AckWatermark>, next: AckWatermark) -> bool {
    previous matches Some(p) && (next.commits <= p.commits || next.points < p.points)
}

/// A log after one more line, of which `found` are the members.
pub open spec fn after_ack(
    progress: AckProgress,
    line: nat,
    found: Result<MembersModel, Seq<char>>,
) -> Result<AckProgress, VerifyFault> {
    match found {
        Err(reason) => Err(ack_fault(line, " is not valid JSON: "@ + reason)),
        Ok(members) => match watermark_of(line, members) {
            Err(fault) => Err(fault),
            Ok(next) => if regresses(progress.previous, next) {
                Err(ack_fault(line, " regresses its cumulative watermark"@))
            } else {
                Ok(
                    AckProgress {
                        previous: Some(next),
                        last_durable: if next.durable {
                            Some(next)
                        } else {
                            progress.last_durable
                        },
                    },
                )
            },
        },
    }
}

/// Takes one line of the log, of which `found` are the members.
pub fn take_ack(progress: &AckProgress, line: u64, found: &Result<Members, String>) -> (out: Result<
    AckProgress,
    VerifyError,
>)
    ensures
        ({
            let model = match *found {
                Ok(members) => Ok::<MembersModel, Seq<char>>(members_model(members@)),
                Err(reason) => Err::<MembersModel, Seq<char>>(reason@),
            };
            match after_ack(*progress, line as nat, model) {
                Ok(next) => out == Ok::<AckProgress, VerifyError>(next),
                Err(fault) => out matches Err(error) && error@ == fault,
            }
        }),
{
    let members = match found {
        Ok(members) => members,
        Err(reason) => {
            let mut text = String::new();
            text.append(" is not valid JSON: ");
            text.append(reason.as_str());
            assert(text@ =~= " is not valid JSON: "@ + reason@);
            return Err(ack_failure(line, text.as_str()));
        },
    };
    let format = string(members, "format")?;
    if !same_text(format.as_str(), "ftwdb-ack-watermark-v1") {
        return Err(ack_failure(line, " has the wrong format"));
    }
    let durable: bool = match find_member(members, "durable") {
        Some(JsonValue::Bool(durable)) => *durable,
        _ => {
            return Err(ack_failure(line, " lacks a boolean durable field"));
        },
    };
    let commits: u64 = unsigned(members, "commits")?;
    let points: u64 = unsigned(members, "points")?;
    let next = AckWatermark { commits, points, durable };
    if let Some(previous) = progress.previous {
        if next.commits <= previous.commits || next.points < previous.points {
            return Err(ack_failure(line, " regresses its cumulative watermark"));
        }
    }
    Ok(
        AckProgress {
            previous: Some(next),
            last_durable: if durable {
                Some(next)
            } else {
                progress.last_durable
            },
        },
    )
}

/// A log after its first `n` lines. Blank lines count but say nothing.
pub open spec fn after_acks(lines: Seq<Seq<char>>, n: nat) -> Result<AckProgress, VerifyFault>
    decreases n,
{
    if n == 0 {
        Ok(AckProgress { previous: None, last_durable: None })
    } else {
        match after_acks(lines, (n - 1) as nat) {
            Err(fault) => Err(fault),
            Ok(progress) => {
                let line = trimmed(lines[n - 1]);
                if line.len() == 0 {
                    Ok(progress)
                } else {
                    after_ack(progress, n, json_members_of(line))
                }
            },
        }
    }
}

/// The last durable watermark of a log. Only lines that are ended count: a power cut
/// can leave a valid prefix as the last line, so that line is never evidence.
pub open spec fn durable_ack(contents: Seq<char>) -> Result<AckWatermark, VerifyFault> {
    let complete = pieces(contents, '\n').drop_last();
    match after_acks(complete, complete.len()) {
        Err(fault) => Err(fault),
        Ok(progress) => match progress.last_durable {
            Some(ack) => Ok(ack),
            None => Err(
                VerifyFault::Invalid("ack log has no complete durable watermark line"@),
            ),
        },
    }
}

proof fn lemma_acks_fault(lines: Seq<Seq<char>>, n: nat, m: nat)
    requires
        n <= m,
        after_acks(lines, n) is Err,
    ensures
        after_acks(lines, m) == after_acks(lines, n),
    decreases m,
{
    if n < m {
        lemma_acks_fault(lines, n, (m - 1) as nat);
    }
}

/// The last durable watermark of a log.
#[verifier::loop_isolation(false)]
pub fn last_durable_ack(contents: &str) -> (out: Result<AckWatermark, VerifyError>)
    ensures
        match durable_ack(contents@) {
            Ok(ack) => out == Ok::<AckWatermark, VerifyError>(ack),
            Err(fault) => out matches Err(error) && error@ == fault,
        },
{
    let all = characters(contents);
    let parts = split(all.as_slice(), '\n');
    let ghost complete = pieces(contents@, '\n').drop_last();
    let last: usize = parts.len() - 1;
    assert(texts(parts@).len() == parts@.len());
    let mut progress = AckProgress { previous: None, last_durable: None };
    let mut i: usize = 0;
    while i < last
        invariant
            i <= last,
            last + 1 == parts@.len(),
            complete.len() == last,
            after_acks(complete, i as nat) == Ok::<AckProgress, VerifyFault>(progress),
        decreases last - i,
    {
        let line = trim(parts[i].as_slice());
        proof {
            assert(texts(parts@)[i as int] == parts@[i as int]@);
            assert(complete[i as int] == parts@[i as int]@);
            if after_acks(complete, (i + 1) as nat) is Err {
                lemma_acks_fault(complete, (i + 1) as nat, last as nat);
            }
        }
        if line.len() > 0 {
            let text = text_of(line.as_slice());
            let found = json_members(text.as_str());
            match take_ack(&progress, (i + 1) as u64, &found) {
                Ok(next) => {
                    progress = next;
                },
                Err(error) => {
                    return Err(error);
                },
            }
        }
        i = i + 1;
    }
    match progress.last_durable {
        Some(ack) => Ok(ack),
        None => Err(invalid("ack log has no complete durable watermark line")),
    }
}

/// The last line that is not blank.
pub open spec fn last_line(lines: Seq<Seq<char>>) -> Option<Seq<char>>
    decreases lines.len(),
{
    if lines.len() == 0 {
        None
    } else if !blank(lines.last()) {
        Some(lines.last())
    } else {
        last_line(lines.drop_last())
    }
}

/// What a file holds, or what the operating system said where it could not be read.
pub type FileText<'a> = Result<&'a str, &'a str>;

/// The text of a file, where it could be read.
pub open spec fn text_in(file: FileText<'_>) -> Result<Seq<char>, VerifyFault> {
    match file {
        Ok(text) => Ok(text@),
        Err(reason) => Err(VerifyFault::Io(reason@)),
    }
}

fn readable<'a>(file: FileText<'a>) -> (out: Result<&'a str, VerifyError>)
    ensures
        match text_in(file) {
            Ok(text) => out matches Ok(found) && found@ == text,
            Err(fault) => out matches Err(error) && error@ == fault,
        },
{
    match file {
        Ok(text) => Ok(text),
        Err(reason) => Err(VerifyError::Io(reason.to_owned())),
    }
}

/// The members of the last line of a file.
pub open spec fn last_members(name: Seq<char>, contents: Result<Seq<char>, VerifyFault>) -> Result<
    MembersModel,
    VerifyFault,
> {
    match contents {
        Err(fault) => Err(fault),
        Ok(contents) => match last_line(lines_of(contents)) {
            None => Err(VerifyFault::Invalid(name + " is empty"@)),
            Some(line) => match json_members_of(line) {
                Ok(members) => Ok(members),
                Err(reason) => Err(VerifyFault::Json(reason)),
            },
        },
    }
}

/// A file by its name and its contents.
#[derive(Clone, Copy, Debug)]
pub struct NamedText<'a> {
    pub name: &'a str,
    pub contents: FileText<'a>,
}

/// Reads the last line of a file.
#[verifier::loop_isolation(false)]
fn last_json_line(file: &NamedText<'_>) -> (out: Result<Members, VerifyError>)
    ensures
        match last_members(file.name@, text_in(file.contents)) {
            Ok(model) => out matches Ok(members) && members_model(members@) == model,
            Err(fault) => out matches Err(error) && error@ == fault,
        },
{
    let contents = readable(file.contents)?;
    let all = characters(contents);
    let found = lines(all.as_slice());
    let ghost every = lines_of(contents@);
    assert(texts(found@).len() == found@.len());
    let mut n: usize = found.len();
    assert(every.take(n as int) =~= every);
    while n > 0
        invariant
            n <= found@.len(),
            last_line(every) == last_line(every.take(n as int)),
        decreases n,
    {
        let line = text_of(found[n - 1].as_slice());
        proof {
            assert(texts(found@)[n - 1] == found@[n - 1]@);
            assert(every.take(n as int).drop_last() =~= every.take(n - 1));
            assert(every.take(n as int).last() == line@);
        }
        if !is_blank(line.as_str()) {
            return match json_members(line.as_str()) {
                Ok(members) => Ok(members),
                Err(reason) => Err(VerifyError::Json(reason)),
            };
        }
        n = n - 1;
    }
    let mut text = String::new();
    text.append(file.name);
    text.append(" is empty");
    assert(text@ =~= file.name@ + " is empty"@);
    Err(VerifyError::Invalid(text))
}

/// What follows a prefix of a text.
pub open spec fn behind(text: Seq<char>, prefix: Seq<char>) -> Option<Seq<char>> {
    if text.len() >= prefix.len() && text.take(prefix.len() as int) == prefix {
        Some(text.skip(prefix.len() as int))
    } else {
        None
    }
}

/// What follows a prefix on the first line that has it.
pub open spec fn first_behind(lines: Seq<Seq<char>>, prefix: Seq<char>) -> Option<Seq<char>>
    decreases lines.len(),
{
    if lines.len() == 0 {
        None
    } else {
        match first_behind(lines.drop_last(), prefix) {
            Some(rest) => Some(rest),
            None => behind(lines.last(), prefix),
        }
    }
}

/// The number of recovered tail bytes that an inspection prints.
pub open spec fn recovered_tail_of(contents: Seq<char>) -> Result<u64, VerifyFault> {
    match first_behind(lines_of(contents), "recovered_tail_bytes: "@) {
        None => Err(VerifyFault::Invalid("inspect output lacks recovered_tail_bytes"@)),
        Some(rest) => match unsigned_value(rest) {
            Ok(n) => Ok(n as u64),
            Err(fault) => Err(
                VerifyFault::Invalid("invalid recovered_tail_bytes: "@ + fault_text(fault)),
            ),
        },
    }
}

proof fn lemma_first_behind(lines: Seq<Seq<char>>, prefix: Seq<char>, n: int)
    requires
        0 <= n <= lines.len(),
        first_behind(lines.take(n), prefix) is Some,
    ensures
        first_behind(lines, prefix) == first_behind(lines.take(n), prefix),
    decreases lines.len() - n,
{
    if n < lines.len() {
        assert(lines.take(n + 1).drop_last() =~= lines.take(n));
        lemma_first_behind(lines, prefix, n + 1);
    } else {
        assert(lines.take(n) =~= lines);
    }
}

fn strip_prefix(text: &Vec<char>, prefix: &Vec<char>) -> (rest: Option<Vec<char>>)
    ensures
        match behind(text@, prefix@) {
            Some(r) => rest matches Some(found) && found@ == r,
            None => rest is None,
        },
{
    if text.len() < prefix.len() {
        return None;
    }
    let mut i: usize = 0;
    while i < prefix.len()
        invariant
            prefix@.len() <= text@.len(),
            i <= prefix@.len(),
            forall|k: int| 0 <= k < i ==> #[trigger] text@[k] == prefix@[k],
        decreases prefix@.len() - i,
    {
        if text[i] != prefix[i] {
            assert(text@.take(prefix@.len() as int)[i as int] != prefix@[i as int]);
            return None;
        }
        i = i + 1;
    }
    assert(text@.take(prefix@.len() as int) =~= prefix@);
    let mut rest: Vec<char> = Vec::new();
    while i < text.len()
        invariant
            prefix@.len() <= i <= text@.len(),
            rest@ == text@.subrange(prefix@.len() as int, i as int),
        decreases text@.len() - i,
    {
        rest.push(text[i]);
        i = i + 1;
        assert(rest@ =~= text@.subrange(prefix@.len() as int, i as int));
    }
    assert(rest@ =~= text@.skip(prefix@.len() as int));
    Some(rest)
}

/// The number of recovered tail bytes that an inspection prints.
#[verifier::loop_isolation(false)]
pub fn parse_recovered_tail(contents: &str) -> (out: Result<u64, VerifyError>)
    ensures
        match recovered_tail_of(contents@) {
            Ok(n) => out == Ok::<u64, VerifyError>(n),
            Err(fault) => out matches Err(error) && error@ == fault,
        },
{
    let prefix = characters("recovered_tail_bytes: ");
    let all = characters(contents);
    let found = lines(all.as_slice());
    let ghost every = lines_of(contents@);
    assert(texts(found@).len() == found@.len());
    let mut i: usize = 0;
    assert(every.take(0) =~= Seq::<Seq<char>>::empty());
    while i < found.len()
        invariant
            i <= found@.len(),
            first_behind(every.take(i as int), prefix@) is None,
        decreases found@.len() - i,
    {
        proof {
            assert(texts(found@)[i as int] == found@[i as int]@);
            assert(every.take(i + 1).drop_last() =~= every.take(i as int));
            assert(every.take(i + 1).last() == found@[i as int]@);
            if first_behind(every.take(i + 1), prefix@) is Some {
                lemma_first_behind(every, prefix@, i + 1);
            }
        }
        if let Some(rest) = strip_prefix(&found[i], &prefix) {
            return match parse_unsigned(rest.as_slice()) {
                Ok(n) => Ok(n),
                Err(fault) => {
                    let mut text = String::new();
                    text.append("invalid recovered_tail_bytes: ");
                    text.append(fault.text());
                    assert(text@ =~= "invalid recovered_tail_bytes: "@ + fault_text(fault));
                    Err(VerifyError::Invalid(text))
                },
            };
        }
        i = i + 1;
    }
    assert(every.take(i as int) =~= every);
    Err(invalid("inspect output lacks recovered_tail_bytes"))
}

pub open spec fn fault_in<T>(result: Result<T, VerifyFault>) -> Option<VerifyFault> {
    match result {
        Ok(_) => None,
        Err(fault) => Some(fault),
    }
}

/// The first of two faults.
pub open spec fn or_else(first: Option<VerifyFault>, second: Option<VerifyFault>) -> Option<
    VerifyFault,
> {
    match first {
        Some(fault) => Some(fault),
        None => second,
    }
}

/// The length of the recovered tail that an inspection printed.
pub open spec fn inspected_tail(inspect: Result<Seq<char>, VerifyFault>) -> Result<
    u64,
    VerifyFault,
> {
    match inspect {
        Ok(text) => recovered_tail_of(text),
        Err(fault) => Err(fault),
    }
}

/// The last promise in a log of acknowledgements.
pub open spec fn logged_ack(log: Result<Seq<char>, VerifyFault>) -> Result<
    AckWatermark,
    VerifyFault,
> {
    match log {
        Ok(text) => durable_ack(text),
        Err(fault) => Err(fault),
    }
}

/// What is first wrong with what was recovered, if anything.
pub open spec fn recovery_fault(
    stats: MembersModel,
    check: MembersModel,
    inspect: Result<Seq<char>, VerifyFault>,
) -> Option<VerifyFault> {
    let fault = fault_in(string_of(stats, "schema_version"@));
    let fault = or_else(
        fault,
        if string_of(stats, "schema_version"@)->Ok_0 != "ftw-sd-emulator-stats-v1"@ {
            Some(VerifyFault::Invalid("emulator input has the wrong schema_version"@))
        } else {
            None
        },
    );
    let fault = or_else(fault, fault_in(string_of(check, "format"@)));
    let fault = or_else(
        fault,
        if string_of(check, "format"@)->Ok_0 != "ftwdb-integrity-v1"@ {
            Some(VerifyFault::Invalid("check input is not an ftwdb-integrity-v1 result"@))
        } else {
            None
        },
    );
    let fault = or_else(fault, fault_in(unsigned_of(check, "raw_points"@)));
    let fault = or_else(fault, fault_in(unsigned_of(check, "raw_commits"@)));
    let fault = or_else(fault, fault_in(inspected_tail(inspect)));
    let fault = or_else(fault, fault_in(unsigned_of(check, "raw_recovered_tail_bytes"@)));
    let fault = or_else(fault, fault_in(string_of(check, "raw_recovered_tail"@)));
    fault
}

/// The first counter of the emulator that is missing, if one is.
pub open spec fn counters_fault(stats: MembersModel) -> Option<VerifyFault> {
    let fault = fault_in(unsigned_of(stats, "injected_torn_operations"@));
    let fault = or_else(fault, fault_in(unsigned_of(stats, "injected_torn_bytes"@)));
    let fault = or_else(fault, fault_in(unsigned_of(stats, "torn_operations"@)));
    let fault = or_else(fault, fault_in(unsigned_of(stats, "torn_bytes"@)));
    let fault = or_else(fault, fault_in(unsigned_of(stats, "injected_eio_operations"@)));
    let fault = or_else(fault, fault_in(unsigned_of(stats, "injected_corruptions"@)));
    let fault = or_else(fault, fault_in(unsigned_of(stats, "false_flushes"@)));
    let fault = or_else(fault, fault_in(unsigned_of(stats, "power_losses"@)));
    let fault = or_else(fault, fault_in(unsigned_of(stats, "dropped_operations"@)));
    let fault = or_else(fault, fault_in(unsigned_of(stats, "dropped_bytes"@)));
    fault
}

/// What is first wrong with the rest of the run, if anything.
pub open spec fn rest_fault(
    stats: MembersModel,
    ack_log: Option<Result<Seq<char>, VerifyFault>>,
) -> Option<VerifyFault> {
    let fault = match ack_log {
        Some(log) => fault_in(logged_ack(log)),
        None => None,
    };
    let fault = or_else(fault, fault_in(string_of(stats, "profile"@)));
    let fault = or_else(fault, fault_in(unsigned_of(stats, "seed"@)));
    let fault = or_else(fault, fault_in(unsigned_of(stats, "reordered_operations"@)));
    let fault = or_else(fault, fault_in(unsigned_of(stats, "max_erase_count"@)));
    let fault = or_else(fault, fault_in(unsigned_of(stats, "bad_blocks"@)));
    let fault = or_else(fault, fault_in(string_of(stats, "emulator_version"@)));
    let fault = or_else(fault, fault_in(string_of(stats, "emulator_commit"@)));
    fault
}

/// Why a run cannot be judged, if it cannot.
pub open spec fn run_fault(
    stats: MembersModel,
    check: MembersModel,
    inspect: Result<Seq<char>, VerifyFault>,
    ack_log: Option<Result<Seq<char>, VerifyFault>>,
) -> Option<VerifyFault> {
    or_else(
        recovery_fault(stats, check, inspect),
        or_else(counters_fault(stats), rest_fault(stats, ack_log)),
    )
}

/// The number under a name that is there.
pub open spec fn number(members: MembersModel, field: Seq<char>) -> u64 {
    unsigned_of(members, field)->Ok_0
}

/// A run to be judged: what the emulator, the integrity check and the inspection
/// printed, and what the writer was promised.
#[derive(Clone, Copy, Debug)]
pub struct VerifyInput<'a> {
    pub emulator: NamedText<'a>,
    pub check: NamedText<'a>,
    pub inspect: FileText<'a>,
    pub expected_points: u64,
    pub expected_commits: u64,
    pub writer_exit: Option<i32>,
    pub writer_signal: Option<i32>,
    pub checksum_ok: Option<bool>,
    pub ack_log: Option<FileText<'a>>,
    pub max_in_flight_commits: u64,
    pub max_in_flight_points: u64,
}

/// The log of acknowledgements of a run, if it has one.
pub open spec fn log_of(input: VerifyInput<'_>) -> Option<Result<Seq<char>, VerifyFault>> {
    match input.ack_log {
        Some(log) => Some(text_in(log)),
        None => None,
    }
}

/// How many commits and points the writer was promised.
pub open spec fn promised(input: VerifyInput<'_>) -> (u64, u64) {
    match log_of(input) {
        Some(log) => (logged_ack(log)->Ok_0.commits, logged_ack(log)->Ok_0.points),
        None => (input.expected_commits, input.expected_points),
    }
}

/// What was found of a run.
#[derive(Debug, PartialEq)]
pub struct FaultRunReport {
    pub schema_version: &'static str,
    pub profile: String,
    pub seed: u64,
    pub fault_kind: Option<String>,
    pub fault_offset: Option<u64>,
    pub fault_operation: Option<u64>,
    pub writer_exit: Option<i32>,
    pub writer_signal: Option<i32>,
    pub acknowledged_commits: u64,
    pub acknowledged_points: u64,
    pub recovered_commits: u64,
    pub recovered_points: u64,
    pub recovered_tail_bytes: u64,
    pub in_flight_commits: u64,
    pub in_flight_points: u64,
    pub contains_every_ack: bool,
    pub has_at_most_one_unacknowledged: bool,
    pub silent_partial_frame: bool,
    pub write_amplification: FloatBits,
    pub check_store_ok: bool,
    pub checksum_ok: Option<bool>,
    pub injected_operations: u64,
    pub injected_bytes: u64,
    pub reordered_operations: u64,
    pub dropped_operations: u64,
    pub dropped_bytes: u64,
    pub torn_operations: u64,
    pub torn_bytes: u64,
    pub max_erase_count: u64,
    pub bad_blocks: u64,
    pub emulator_version: String,
    pub emulator_commit: String,
    pub passed: bool,
}

/// A difference that stops at zero.
pub open spec fn beyond(a: u64, b: u64) -> u64 {
    if a > b {
        (a - b) as u64
    } else {
        0
    }
}

/// A sum that stops at the largest count.
pub open spec fn plus(a: u64, b: u64) -> u64 {
    if a + b > u64::MAX {
        u64::MAX
    } else {
        (a + b) as u64
    }
}

/// Whether a tail was dropped that is no incomplete frame, or the two accounts of the
/// tail differ.
pub open spec fn tail_is_suspect(kind: Seq<char>, checked: u64, inspected: u64) -> bool {
    ||| checked != inspected
    ||| !(kind == "none"@ || kind == "incomplete-header"@ || kind == "incomplete-payload"@)
    ||| kind == "none"@ && inspected != 0
}

/// Whether everything promised was recovered.
pub open spec fn every_ack_is_there(input: VerifyInput<'_>, check: MembersModel) -> bool {
    number(check, "raw_commits"@) >= promised(input).0 && number(check, "raw_points"@) >= promised(
        input,
    ).1
}

/// Whether no more was recovered beyond that than could be in flight.
pub open spec fn little_is_in_flight(input: VerifyInput<'_>, check: MembersModel) -> bool {
    beyond(number(check, "raw_commits"@), promised(input).0) <= input.max_in_flight_commits
        && beyond(number(check, "raw_points"@), promised(input).1) <= input.max_in_flight_points
}

pub open spec fn suspect(input: VerifyInput<'_>, check: MembersModel) -> bool {
    tail_is_suspect(
        string_of(check, "raw_recovered_tail"@)->Ok_0,
        number(check, "raw_recovered_tail_bytes"@),
        inspected_tail(text_in(input.inspect))->Ok_0,
    )
}

/// Whether a run has passed. One with a log of acknowledgements may have been cut in
/// the middle of a commit; any other has to match exactly.
pub open spec fn run_passes(input: VerifyInput<'_>, check: MembersModel) -> bool {
    &&& input.checksum_ok != Some(false)
    &&& if input.ack_log is Some {
        every_ack_is_there(input, check) && little_is_in_flight(input, check) && !suspect(
            input,
            check,
        )
    } else {
        number(check, "raw_points"@) == promised(input).1 && number(check, "raw_commits"@)
            == promised(input).0
    }
}

/// Whether an optional text holds what is expected.
pub open spec fn holds_text(text: Option<String>, expected: Option<Seq<char>>) -> bool {
    match expected {
        Some(t) => text matches Some(found) && found@ == t,
        None => text is None,
    }
}

/// Whether a report is that of a run.
pub open spec fn reports_run(
    report: FaultRunReport,
    input: VerifyInput<'_>,
    stats: MembersModel,
    check: MembersModel,
    write_amplification: FloatBits,
) -> bool {
    &&& report.schema_version == "ftw-sd-fault-run-v1"
    &&& report.profile@ == string_of(stats, "profile"@)->Ok_0
    &&& report.seed == number(stats, "seed"@)
    &&& holds_text(report.fault_kind, optional_string_of(stats, "last_fault_kind"@))
    &&& report.fault_offset == optional_unsigned_of(stats, "last_fault_offset"@)
    &&& report.fault_operation == optional_unsigned_of(stats, "last_fault_operation"@)
    &&& report.writer_exit == input.writer_exit
    &&& report.writer_signal == input.writer_signal
    &&& report.acknowledged_commits == promised(input).0
    &&& report.acknowledged_points == promised(input).1
    &&& report.recovered_commits == number(check, "raw_commits"@)
    &&& report.recovered_points == number(check, "raw_points"@)
    &&& report.recovered_tail_bytes == inspected_tail(text_in(input.inspect))->Ok_0
    &&& report.in_flight_commits == beyond(number(check, "raw_commits"@), promised(input).0)
    &&& report.in_flight_points == beyond(number(check, "raw_points"@), promised(input).1)
    &&& report.contains_every_ack == every_ack_is_there(input, check)
    &&& report.has_at_most_one_unacknowledged == little_is_in_flight(input, check)
    &&& report.silent_partial_frame == suspect(input, check)
    &&& report.write_amplification == write_amplification
    &&& report.check_store_ok
    &&& report.checksum_ok == input.checksum_ok
    &&& report.injected_operations == plus(
        plus(
            plus(
                plus(
                    number(stats, "injected_eio_operations"@),
                    number(stats, "injected_torn_operations"@),
                ),
                number(stats, "injected_corruptions"@),
            ),
            number(stats, "false_flushes"@),
        ),
        number(stats, "power_losses"@),
    )
    &&& report.injected_bytes == plus(
        plus(number(stats, "injected_torn_bytes"@), number(stats, "torn_bytes"@)),
        number(stats, "dropped_bytes"@),
    )
    &&& report.reordered_operations == number(stats, "reordered_operations"@)
    &&& report.dropped_operations == number(stats, "dropped_operations"@)
    &&& report.dropped_bytes == number(stats, "dropped_bytes"@)
    &&& report.torn_operations == plus(
        number(stats, "injected_torn_operations"@),
        number(stats, "torn_operations"@),
    )
    &&& report.torn_bytes == plus(
        number(stats, "injected_torn_bytes"@),
        number(stats, "torn_bytes"@),
    )
    &&& report.max_erase_count == number(stats, "max_erase_count"@)
    &&& report.bad_blocks == number(stats, "bad_blocks"@)
    &&& report.emulator_version@ == string_of(stats, "emulator_version"@)->Ok_0
    &&& report.emulator_commit@ == string_of(stats, "emulator_commit"@)->Ok_0
    &&& report.passed == run_passes(input, check)
}

/// Judges a run by what the emulator and the integrity check have said.
#[verifier::rlimit(60)]
pub fn judge(
    input: &VerifyInput<'_>,
    stats: &Members,
    check: &Members,
    write_amplification: FloatBits,
) -> (out: Result<FaultRunReport, VerifyError>)
    ensures
        ({
            let s = members_model(stats@);
            let c = members_model(check@);
            match run_fault(s, c, text_in(input.inspect), log_of(*input)) {
                Some(fault) => out matches Err(error) && error@ == fault,
                None => out matches Ok(report) && reports_run(
                    report,
                    *input,
                    s,
                    c,
                    write_amplification,
                ),
            }
        }),
{
    let schema = string(stats, "schema_version")?;
    if !same_text(schema.as_str(), "ftw-sd-emulator-stats-v1") {
        return Err(invalid("emulator input has the wrong schema_version"));
    }
    let format = string(check, "format")?;
    if !same_text(format.as_str(), "ftwdb-integrity-v1") {
        return Err(invalid("check input is not an ftwdb-integrity-v1 result"));
    }
    let recovered_points: u64 = unsigned(check, "raw_points")?;
    let recovered_commits: u64 = unsigned(check, "raw_commits")?;
    let recovered_tail_bytes: u64 = parse_recovered_tail(readable(input.inspect)?)?;
    let check_tail_bytes: u64 = unsigned(check, "raw_recovered_tail_bytes")?;
    let tail_kind = string(check, "raw_recovered_tail")?;
    let injected_torn_operations: u64 = unsigned(stats, "injected_torn_operations")?;
    let injected_torn_bytes: u64 = unsigned(stats, "injected_torn_bytes")?;
    let torn_operations: u64 = unsigned(stats, "torn_operations")?;
    let torn_bytes: u64 = unsigned(stats, "torn_bytes")?;
    let injected_eio_operations: u64 = unsigned(stats, "injected_eio_operations")?;
    let injected_corruptions: u64 = unsigned(stats, "injected_corruptions")?;
    let false_flushes: u64 = unsigned(stats, "false_flushes")?;
    let power_losses: u64 = unsigned(stats, "power_losses")?;
    let dropped_operations: u64 = unsigned(stats, "dropped_operations")?;
    let dropped_bytes: u64 = unsigned(stats, "dropped_bytes")?;
    let (acknowledged_commits, acknowledged_points): (u64, u64) = match input.ack_log {
        Some(log) => {
            let ack = last_durable_ack(readable(log)?)?;
            (ack.commits, ack.points)
        },
        None => (input.expected_commits, input.expected_points),
    };
    let contains_every_ack: bool = recovered_commits >= acknowledged_commits && recovered_points
        >= acknowledged_points;
    let in_flight_commits: u64 = recovered_commits.saturating_sub(acknowledged_commits);
    let in_flight_points: u64 = recovered_points.saturating_sub(acknowledged_points);
    let little: bool = in_flight_commits <= input.max_in_flight_commits && in_flight_points
        <= input.max_in_flight_points;
    let none: bool = same_text(tail_kind.as_str(), "none");
    let known: bool = none || same_text(tail_kind.as_str(), "incomplete-header") || same_text(
        tail_kind.as_str(),
        "incomplete-payload",
    );
    let silent_partial_frame: bool = check_tail_bytes != recovered_tail_bytes || !known || (none
        && recovered_tail_bytes != 0);
    let checksum_passed: bool = match input.checksum_ok {
        Some(ok) => ok,
        None => true,
    };
    let passed: bool = checksum_passed && if input.ack_log.is_some() {
        contains_every_ack && little && !silent_partial_frame
    } else {
        recovered_points == acknowledged_points && recovered_commits == acknowledged_commits
    };
    let profile = string(stats, "profile")?;
    let seed: u64 = unsigned(stats, "seed")?;
    let reordered_operations: u64 = unsigned(stats, "reordered_operations")?;
    let max_erase_count: u64 = unsigned(stats, "max_erase_count")?;
    let bad_blocks: u64 = unsigned(stats, "bad_blocks")?;
    let emulator_version = string(stats, "emulator_version")?;
    let emulator_commit = string(stats, "emulator_commit")?;
    Ok(
        FaultRunReport {
            schema_version: "ftw-sd-fault-run-v1",
            profile,
            seed,
            fault_kind: optional_string(stats, "last_fault_kind"),
            fault_offset: optional_unsigned(stats, "last_fault_offset"),
            fault_operation: optional_unsigned(stats, "last_fault_operation"),
            writer_exit: input.writer_exit,
            writer_signal: input.writer_signal,
            acknowledged_commits,
            acknowledged_points,
            recovered_commits,
            recovered_points,
            recovered_tail_bytes,
            in_flight_commits,
            in_flight_points,
            contains_every_ack,
            has_at_most_one_unacknowledged: little,
            silent_partial_frame,
            write_amplification,
            check_store_ok: true,
            checksum_ok: input.checksum_ok,
            injected_operations: injected_eio_operations.saturating_add(
                injected_torn_operations,
            ).saturating_add(injected_corruptions).saturating_add(false_flushes).saturating_add(
                power_losses,
            ),
            injected_bytes: injected_torn_bytes.saturating_add(torn_bytes).saturating_add(
                dropped_bytes,
            ),
            reordered_operations,
            dropped_operations,
            dropped_bytes,
            torn_operations: injected_torn_operations.saturating_add(torn_operations),
            torn_bytes: injected_torn_bytes.saturating_add(torn_bytes),
            max_erase_count,
            bad_blocks,
            emulator_version,
            emulator_commit,
            passed,
        },
    )
}

/// The statistics in an answer of the emulator: they stand on their own or under a
/// name.
pub open spec fn stats_of(emulator: MembersModel) -> MembersModel {
    match member_of(emulator, "stats"@) {
        None => emulator,
        Some(JsonModel::Object(inner)) => inner,
        Some(_) => Seq::empty(),
    }
}

/// What a whole verification gives, whatever the files hold.
pub open spec fn verified_run(
    input: VerifyInput<'_>,
    write_amplification: FloatBits,
    out: Result<FaultRunReport, VerifyError>,
) -> bool {
    match last_members(input.emulator.name@, text_in(input.emulator.contents)) {
        Err(fault) => out matches Err(error) && error@ == fault,
        Ok(emulator) => match last_members(input.check.name@, text_in(input.check.contents)) {
            Err(fault) => out matches Err(error) && error@ == fault,
            Ok(check) => match run_fault(
                stats_of(emulator),
                check,
                text_in(input.inspect),
                log_of(input),
            ) {
                Some(fault) => out matches Err(error) && error@ == fault,
                None => out matches Ok(report) && reports_run(
                    report,
                    input,
                    stats_of(emulator),
                    check,
                    write_amplification,
                ),
            },
        },
    }
}

/// Verifies a run. `write_amplification` is the number that the emulator gives under
/// that name, or zero.
pub fn verify(input: &VerifyInput<'_>, write_amplification: FloatBits) -> (out: Result<
    FaultRunReport,
    VerifyError,
>)
    ensures
        verified_run(*input, write_amplification, out),
{
    let emulator = last_json_line(&input.emulator)?;
    let check = last_json_line(&input.check)?;
    match find_member(&emulator, "stats") {
        None => judge(input, &emulator, &check, write_amplification),
        Some(JsonValue::Object(inner)) => {
            assert(members_model(inner@) =~= stats_of(members_model(emulator@)));
            judge(input, inner, &check, write_amplification)
        },
        Some(_) => {
            let nothing: Members = Vec::new();
            assert(members_model(nothing@) =~= Seq::empty());
            judge(input, &nothing, &check, write_amplification)
        },
    }
}

/// A run that passes has recovered everything that its writer was promised.
pub proof fn passed_runs_keep_promises(
    report: FaultRunReport,
    input: VerifyInput<'_>,
    stats: MembersModel,
    check: MembersModel,
    write_amplification: FloatBits,
)
    requires
        reports_run(report, input, stats, check, write_amplification),
        report.passed,
    ensures
        report.recovered_commits >= report.acknowledged_commits,
        report.recovered_points >= report.acknowledged_points,
        report.contains_every_ack,
{
}

} // verus!
