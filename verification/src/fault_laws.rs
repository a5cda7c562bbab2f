//! What the judgement of a fault run rests on: which acknowledgement counts, and when a
//! run passes.
#[allow(unused_imports)]
use crate::fault_report::{
    after_acks, durable_ack, log_of, promised, recovered_tail_of, reports_run, run_fault, text_in,
    watermark_of, AckWatermark, FaultRunReport, VerifyFault, VerifyInput,
};
#[allow(unused_imports)]
use crate::json::{json_members_of, member_of, JsonModel, MembersModel};
#[allow(unused_imports)]
use crate::model::FloatBits;
#[allow(unused_imports)]
use crate::text_scan::{lemma_some_piece, pieces, trimmed};
use vstd::prelude::*;
use vstd::string::*;

verus! {

/// Whether a line of a log tells of a watermark.
pub open spec fn tells(line: Seq<char>, mark: AckWatermark) -> bool {
    &&& trimmed(line).len() > 0
    &&& json_members_of(trimmed(line)) is Ok
    &&& ({
        let members = json_members_of(trimmed(line))->Ok_0;
        &&& member_of(members, "format"@) == Some(JsonModel::Text("ftwdb-ack-watermark-v1"@))
        &&& member_of(members, "commits"@) == Some(JsonModel::Number(Some(mark.commits)))
        &&& member_of(members, "points"@) == Some(JsonModel::Number(Some(mark.points)))
        &&& member_of(members, "durable"@) == Some(JsonModel::Bool(mark.durable))
    })
}

/// Whether a line of a log has nothing on it.
pub open spec fn says_nothing(line: Seq<char>) -> bool {
    trimmed(line).len() == 0
}

/// Whether the last line that tells of a watermark tells of this one.
spec fn told_last(lines: Seq<Seq<char>>, n: int, mark: AckWatermark) -> bool {
    exists|i: int|
        0 <= i < n && #[trigger] tells(lines[i], mark) && forall|j: int|
            i < j < n ==> says_nothing(#[trigger] lines[j])
}

/// Whether the last line that tells of a durable watermark tells of this one.
spec fn told_durable_last(lines: Seq<Seq<char>>, n: int, mark: AckWatermark) -> bool {
    mark.durable && exists|i: int|
        0 <= i < n && #[trigger] tells(lines[i], mark) && forall|j: int, later: AckWatermark|
            i < j < n && #[trigger] tells(lines[j], later) ==> !later.durable
}

/// What a log shows after some lines.
proof fn lemma_progress(lines: Seq<Seq<char>>, n: nat)
    requires
        n <= lines.len(),
        after_acks(lines, n) is Ok,
    ensures
        ({
            let progress = after_acks(lines, n)->Ok_0;
            &&& forall|i: int|
                0 <= i < n && !says_nothing(#[trigger] lines[i]) ==> exists|mark: AckWatermark|
                    tells(lines[i], mark)
            &&& match progress.previous {
                None => forall|i: int| 0 <= i < n ==> says_nothing(#[trigger] lines[i]),
                Some(mark) => told_last(lines, n as int, mark),
            }
            &&& match progress.last_durable {
                None => forall|i: int, mark: AckWatermark|
                    0 <= i < n && #[trigger] tells(lines[i], mark) ==> !mark.durable,
                Some(mark) => told_durable_last(lines, n as int, mark),
            }
            &&& forall|i: int, j: int, a: AckWatermark, b: AckWatermark|
                0 <= i < j < n && #[trigger] tells(lines[i], a) && #[trigger] tells(lines[j], b)
                    ==> a.commits < b.commits && a.points <= b.points
        }),
    decreases n,
{
    if n > 0 {
        let m = (n - 1) as nat;
        lemma_progress(lines, m);
        let before = after_acks(lines, m)->Ok_0;
        let progress = after_acks(lines, n)->Ok_0;
        let line = lines[n - 1];
        if says_nothing(line) {
            if let Some(mark) = before.previous {
                let i = choose|i: int|
                    0 <= i < m && #[trigger] tells(lines[i], mark) && forall|j: int|
                        i < j < m ==> says_nothing(#[trigger] lines[j]);
                assert(tells(lines[i], mark) && forall|j: int|
                    i < j < n ==> says_nothing(#[trigger] lines[j]));
            }
            if let Some(mark) = before.last_durable {
                let i = choose|i: int|
                    0 <= i < m && #[trigger] tells(lines[i], mark) && forall|
                        j: int,
                        later: AckWatermark,
                    |
                        i < j < m && #[trigger] tells(lines[j], later) ==> !later.durable;
                assert(tells(lines[i], mark) && forall|j: int, later: AckWatermark|
                    i < j < n && #[trigger] tells(lines[j], later) ==> !later.durable);
            }
        } else {
            let members = json_members_of(trimmed(line))->Ok_0;
            let next = progress.previous->Some_0;
            assert(tells(line, next));
            assert(tells(lines[n - 1], next));
            assert(told_last(lines, n as int, next));
            if next.durable {
                assert(told_durable_last(lines, n as int, next));
            } else if let Some(mark) = before.last_durable {
                let i = choose|i: int|
                    0 <= i < m && #[trigger] tells(lines[i], mark) && forall|
                        j: int,
                        later: AckWatermark,
                    |
                        i < j < m && #[trigger] tells(lines[j], later) ==> !later.durable;
                assert(tells(lines[i], mark) && forall|j: int, later: AckWatermark|
                    i < j < n && #[trigger] tells(lines[j], later) ==> !later.durable);
            }
            assert forall|i: int, j: int, a: AckWatermark, b: AckWatermark|
                0 <= i < j < n && #[trigger] tells(lines[i], a) && #[trigger] tells(
                    lines[j],
                    b,
                ) implies a.commits < b.commits && a.points <= b.points by {
                if j == n - 1 {
                    assert(b == next);
                    assert(!says_nothing(lines[i]));
                    let mark = before.previous->Some_0;
                    let k = choose|k: int|
                        0 <= k < m && #[trigger] tells(lines[k], mark) && forall|l: int|
                            k < l < m ==> says_nothing(#[trigger] lines[l]);
                    if i < k {
                        assert(a.commits < mark.commits && a.points <= mark.points);
                    } else if i == k {
                        assert(a == mark);
                    }
                }
            }
        }
    }
}

/// A log whose lines tell of growing watermarks can be read to its end.
proof fn lemma_readable(lines: Seq<Seq<char>>, n: nat)
    requires
        n <= lines.len(),
        forall|i: int|
            0 <= i < n && !says_nothing(#[trigger] lines[i]) ==> exists|mark: AckWatermark|
                tells(lines[i], mark),
        forall|i: int, j: int, a: AckWatermark, b: AckWatermark|
            0 <= i < j < n && #[trigger] tells(lines[i], a) && #[trigger] tells(lines[j], b)
                ==> a.commits < b.commits && a.points <= b.points,
    ensures
        after_acks(lines, n) is Ok,
    decreases n,
{
    if n > 0 {
        let m = (n - 1) as nat;
        lemma_readable(lines, m);
        lemma_progress(lines, m);
        let before = after_acks(lines, m)->Ok_0;
        let line = lines[n - 1];
        if !says_nothing(line) {
            let mark = choose|mark: AckWatermark| tells(line, mark);
            assert(tells(lines[n - 1], mark));
            assert(watermark_of(n, json_members_of(trimmed(line))->Ok_0) == Ok::<
                AckWatermark,
                VerifyFault,
            >(mark));
            if let Some(previous) = before.previous {
                let i = choose|i: int|
                    0 <= i < m && #[trigger] tells(lines[i], previous) && forall|j: int|
                        i < j < m ==> says_nothing(#[trigger] lines[j]);
                assert(tells(lines[i], previous));
            }
        }
    }
}

/// The last durable acknowledgement is durable. It stands on a line that was ended, and no
/// later one of these is durable.
pub proof fn last_durable_acks_are_durable(contents: Seq<char>)
    requires
        durable_ack(contents) is Ok,
    ensures
        (durable_ack(contents)->Ok_0).durable,
        exists|i: int|
            0 <= i < pieces(contents, '\n').len() - 1 && #[trigger] tells(
                pieces(contents, '\n')[i],
                durable_ack(contents)->Ok_0,
            ) && forall|j: int, later: AckWatermark|
                i < j < pieces(contents, '\n').len() - 1 && #[trigger] tells(
                    pieces(contents, '\n')[j],
                    later,
                ) ==> !later.durable,
{
    let all = pieces(contents, '\n');
    let ended = all.drop_last();
    let ack = durable_ack(contents)->Ok_0;
    lemma_some_piece(contents, '\n');
    lemma_progress(ended, ended.len());
    let i = choose|i: int|
        0 <= i < ended.len() && #[trigger] tells(ended[i], ack) && forall|
            j: int,
            later: AckWatermark,
        |
            i < j < ended.len() && #[trigger] tells(ended[j], later) ==> !later.durable;
    assert(tells(all[i], ack));
    assert forall|j: int, later: AckWatermark|
        i < j < all.len() - 1 && #[trigger] tells(all[j], later) implies !later.durable by {
        assert(tells(ended[j], later));
    }
}

/// A log gives an acknowledgement exactly where each of its ended lines is blank or tells
/// of a watermark, each has more commits and no fewer points than those before it, and
/// one is durable.
pub proof fn logs_are_read_where_they_grow(contents: Seq<char>)
    ensures
        durable_ack(contents) is Ok <==> {
            let all = pieces(contents, '\n');
            let n = all.len() - 1;
            &&& forall|i: int|
                0 <= i < n && !says_nothing(#[trigger] all[i]) ==> exists|mark: AckWatermark|
                    tells(all[i], mark)
            &&& forall|i: int, j: int, a: AckWatermark, b: AckWatermark|
                0 <= i < j < n && #[trigger] tells(all[i], a) && #[trigger] tells(all[j], b)
                    ==> a.commits < b.commits && a.points <= b.points
            &&& exists|i: int, mark: AckWatermark|
                0 <= i < n && #[trigger] tells(all[i], mark) && mark.durable
        },
{
    let all = pieces(contents, '\n');
    let ended = all.drop_last();
    let n = all.len() - 1;
    lemma_some_piece(contents, '\n');
    assert forall|i: int| 0 <= i < n implies ended[i] == #[trigger] all[i] by {}
    if durable_ack(contents) is Ok {
        lemma_progress(ended, ended.len());
        last_durable_acks_are_durable(contents);
        let ack = durable_ack(contents)->Ok_0;
        let i = choose|i: int| 0 <= i < n && #[trigger] tells(all[i], ack);
        assert(tells(all[i], ack) && ack.durable);
        assert forall|i: int| 0 <= i < n && !says_nothing(#[trigger] all[i]) implies exists|
            mark: AckWatermark,
        | tells(all[i], mark) by {
            assert(ended[i] == all[i]);
            let mark = choose|mark: AckWatermark| tells(ended[i], mark);
            assert(tells(all[i], mark));
        }
        assert forall|i: int, j: int, a: AckWatermark, b: AckWatermark|
            0 <= i < j < n && #[trigger] tells(all[i], a) && #[trigger] tells(
                all[j],
                b,
            ) implies a.commits < b.commits && a.points <= b.points by {
            assert(tells(ended[i], a) && tells(ended[j], b));
        }
    }
    if {
        &&& forall|i: int|
            0 <= i < n && !says_nothing(#[trigger] all[i]) ==> exists|mark: AckWatermark|
                tells(all[i], mark)
        &&& forall|i: int, j: int, a: AckWatermark, b: AckWatermark|
            0 <= i < j < n && #[trigger] tells(all[i], a) && #[trigger] tells(all[j], b)
                ==> a.commits < b.commits && a.points <= b.points
        &&& exists|i: int, mark: AckWatermark|
            0 <= i < n && #[trigger] tells(all[i], mark) && mark.durable
    } {
        assert forall|i: int| 0 <= i < n && !says_nothing(#[trigger] ended[i]) implies exists|
            mark: AckWatermark,
        | tells(ended[i], mark) by {
            assert(ended[i] == all[i]);
            let mark = choose|mark: AckWatermark| tells(all[i], mark);
            assert(tells(ended[i], mark));
        }
        assert forall|i: int, j: int, a: AckWatermark, b: AckWatermark|
            0 <= i < j < n && #[trigger] tells(ended[i], a) && #[trigger] tells(
                ended[j],
                b,
            ) implies a.commits < b.commits && a.points <= b.points by {
            assert(tells(all[i], a) && tells(all[j], b));
        }
        lemma_readable(ended, ended.len());
        lemma_progress(ended, ended.len());
        let (i, mark) = choose|i: int, mark: AckWatermark|
            0 <= i < n && #[trigger] tells(all[i], mark) && mark.durable;
        assert(tells(ended[i], mark));
    }
}

/// What follows the last line end of a log is no evidence: with or without it, the log
/// says the same.
pub proof fn unended_lines_are_no_evidence(contents: Seq<char>, tail: Seq<char>)
    requires
        forall|i: int| 0 <= i < tail.len() ==> #[trigger] tail[i] != '\n',
    ensures
        durable_ack(contents + tail) == durable_ack(contents),
    decreases tail.len(),
{
    let whole = contents + tail;
    if tail.len() == 0 {
        assert(whole =~= contents);
    } else {
        let shorter = tail.drop_last();
        assert forall|i: int| 0 <= i < shorter.len() implies #[trigger] shorter[i] != '\n' by {
            assert(shorter[i] == tail[i]);
        }
        unended_lines_are_no_evidence(contents, shorter);
        assert(whole.drop_last() =~= contents + shorter);
        assert(tail[tail.len() - 1] != '\n');
        lemma_some_piece(contents + shorter, '\n');
        let front = pieces(contents + shorter, '\n');
        assert(pieces(whole, '\n').drop_last() =~= front.drop_last());
    }
}

/// Whether a number stands under a name.
pub open spec fn gives(members: MembersModel, name: Seq<char>, n: u64) -> bool {
    member_of(members, name) == Some(JsonModel::Number(Some(n)))
}

/// What a report says was promised is what the writer was promised: the last durable
/// acknowledgement in the log where there is one, and the expected counts where there is
/// none. What it says was recovered is what the integrity check has counted.
pub proof fn reports_compare_promise_and_recovery(
    report: FaultRunReport,
    input: VerifyInput<'_>,
    stats: MembersModel,
    check: MembersModel,
    write_amplification: FloatBits,
)
    requires
        run_fault(stats, check, text_in(input.inspect), log_of(input)) is None,
        reports_run(report, input, stats, check, write_amplification),
    ensures
        gives(check, "raw_commits"@, report.recovered_commits),
        gives(check, "raw_points"@, report.recovered_points),
        input.ack_log is None ==> report.acknowledged_commits == input.expected_commits
            && report.acknowledged_points == input.expected_points,
        input.ack_log matches Some(Ok(log)) ==> durable_ack(log@) matches Ok(ack)
            && report.acknowledged_commits == ack.commits && report.acknowledged_points
            == ack.points,
        input.ack_log matches Some(log) ==> log is Ok,
        input.inspect matches Ok(text) && recovered_tail_of(text@) == Ok::<u64, VerifyFault>(
            report.recovered_tail_bytes,
        ),
        member_of(check, "format"@) == Some(JsonModel::Text("ftwdb-integrity-v1"@)),
        member_of(stats, "schema_version"@) == Some(
            JsonModel::Text("ftw-sd-emulator-stats-v1"@),
        ),
{
}

/// A run contains every acknowledgement exactly where no fewer commits and no fewer points
/// were recovered than were promised. What was recovered beyond that was in flight, and is
/// held to what may be.
pub proof fn acknowledgements_are_held_to_recovery(
    report: FaultRunReport,
    input: VerifyInput<'_>,
    stats: MembersModel,
    check: MembersModel,
    write_amplification: FloatBits,
)
    requires
        run_fault(stats, check, text_in(input.inspect), log_of(input)) is None,
        reports_run(report, input, stats, check, write_amplification),
    ensures
        report.contains_every_ack <==> report.recovered_commits >= report.acknowledged_commits
            && report.recovered_points >= report.acknowledged_points,
        report.recovered_commits >= report.acknowledged_commits ==> report.acknowledged_commits
            + report.in_flight_commits == report.recovered_commits,
        report.recovered_commits < report.acknowledged_commits ==> report.in_flight_commits == 0,
        report.recovered_points >= report.acknowledged_points ==> report.acknowledged_points
            + report.in_flight_points == report.recovered_points,
        report.recovered_points < report.acknowledged_points ==> report.in_flight_points == 0,
        report.has_at_most_one_unacknowledged <==> report.in_flight_commits
            <= input.max_in_flight_commits && report.in_flight_points
            <= input.max_in_flight_points,
{
}

/// A frame was lost in silence exactly where the two accounts of the dropped tail differ,
/// or the tail is of no known kind, or something was dropped where there was no tail.
pub proof fn silent_losses_are_noticed(
    report: FaultRunReport,
    input: VerifyInput<'_>,
    stats: MembersModel,
    check: MembersModel,
    write_amplification: FloatBits,
    tail_bytes: u64,
    kind: Seq<char>,
)
    requires
        run_fault(stats, check, text_in(input.inspect), log_of(input)) is None,
        reports_run(report, input, stats, check, write_amplification),
        gives(check, "raw_recovered_tail_bytes"@, tail_bytes),
        member_of(check, "raw_recovered_tail"@) == Some(JsonModel::Text(kind)),
    ensures
        !report.silent_partial_frame <==> {
            &&& tail_bytes == report.recovered_tail_bytes
            &&& {
                ||| kind == "none"@ && tail_bytes == 0
                ||| kind == "incomplete-header"@
                ||| kind == "incomplete-payload"@
            }
        },
{
    reveal_strlit("none");
    reveal_strlit("incomplete-header");
    reveal_strlit("incomplete-payload");
    assert("none"@.len() == 4 && "incomplete-header"@.len() == 17 && "incomplete-payload"@.len()
        == 18);
}

/// When a run passes. One with a log passes where nothing promised is lost, no more than
/// could be in flight was recovered beyond it, and no frame was lost in silence; one
/// without a log passes where exactly what was expected was recovered. Neither passes
/// with a checksum that failed.
pub proof fn runs_pass_where_promises_are_kept(
    report: FaultRunReport,
    input: VerifyInput<'_>,
    stats: MembersModel,
    check: MembersModel,
    write_amplification: FloatBits,
)
    requires
        run_fault(stats, check, text_in(input.inspect), log_of(input)) is None,
        reports_run(report, input, stats, check, write_amplification),
    ensures
        input.ack_log is Some ==> (report.passed <==> report.contains_every_ack
            && report.has_at_most_one_unacknowledged && !report.silent_partial_frame
            && input.checksum_ok != Some(false)),
        input.ack_log is None ==> (report.passed <==> report.recovered_commits
            == input.expected_commits && report.recovered_points == input.expected_points
            && input.checksum_ok != Some(false)),
        report.checksum_ok == input.checksum_ok,
        report.writer_exit == input.writer_exit,
        report.writer_signal == input.writer_signal,
        report.check_store_ok,
{
}

/// The counts of a report are those of the emulator. Where they fit, what was injected and
/// what was torn add up from its counters.
pub proof fn reports_give_the_counters(
    report: FaultRunReport,
    input: VerifyInput<'_>,
    stats: MembersModel,
    check: MembersModel,
    write_amplification: FloatBits,
    eio: u64,
    torn_in: u64,
    corrupted: u64,
    false_flushes: u64,
    losses: u64,
    torn_bytes_in: u64,
    torn: u64,
    torn_bytes: u64,
)
    requires
        run_fault(stats, check, text_in(input.inspect), log_of(input)) is None,
        reports_run(report, input, stats, check, write_amplification),
        gives(stats, "injected_eio_operations"@, eio),
        gives(stats, "injected_torn_operations"@, torn_in),
        gives(stats, "injected_corruptions"@, corrupted),
        gives(stats, "false_flushes"@, false_flushes),
        gives(stats, "power_losses"@, losses),
        gives(stats, "injected_torn_bytes"@, torn_bytes_in),
        gives(stats, "torn_operations"@, torn),
        gives(stats, "torn_bytes"@, torn_bytes),
    ensures
        gives(stats, "seed"@, report.seed),
        gives(stats, "reordered_operations"@, report.reordered_operations),
        gives(stats, "dropped_operations"@, report.dropped_operations),
        gives(stats, "dropped_bytes"@, report.dropped_bytes),
        gives(stats, "max_erase_count"@, report.max_erase_count),
        gives(stats, "bad_blocks"@, report.bad_blocks),
        eio + torn_in + corrupted + false_flushes + losses <= u64::MAX
            ==> report.injected_operations == eio + torn_in + corrupted + false_flushes + losses,
        eio + torn_in + corrupted + false_flushes + losses > u64::MAX
            ==> report.injected_operations == u64::MAX,
        torn_bytes_in + torn_bytes + report.dropped_bytes <= u64::MAX ==> report.injected_bytes
            == torn_bytes_in + torn_bytes + report.dropped_bytes,
        torn_in + torn <= u64::MAX ==> report.torn_operations == torn_in + torn,
        torn_bytes_in + torn_bytes <= u64::MAX ==> report.torn_bytes == torn_bytes_in
            + torn_bytes,
        report.write_amplification == write_amplification,
        member_of(stats, "profile"@) == Some(JsonModel::Text(report.profile@)),
        member_of(stats, "emulator_version"@) == Some(JsonModel::Text(report.emulator_version@)),
        member_of(stats, "emulator_commit"@) == Some(JsonModel::Text(report.emulator_commit@)),
        report.fault_offset matches Some(n) ==> gives(stats, "last_fault_offset"@, n),
        report.fault_operation matches Some(n) ==> gives(stats, "last_fault_operation"@, n),
        report.fault_kind matches Some(kind) ==> member_of(stats, "last_fault_kind"@) == Some(
            JsonModel::Text(kind@),
        ),
        report.schema_version@ == "ftw-sd-fault-run-v1"@,
{
}

/// Whether some number stands under a name.
pub open spec fn has_number(members: MembersModel, name: Seq<char>) -> bool {
    member_of(members, name) matches Some(JsonModel::Number(Some(_)))
}

/// Whether a text stands under a name.
pub open spec fn has_text(members: MembersModel, name: Seq<char>) -> bool {
    member_of(members, name) is Some && member_of(members, name)->Some_0 is Text
}

/// A run can be judged exactly where all that the judgement needs is there.
pub proof fn runs_are_judged_where_nothing_is_missing(
    input: VerifyInput<'_>,
    stats: MembersModel,
    check: MembersModel,
)
    ensures
        run_fault(stats, check, text_in(input.inspect), log_of(input)) is None <==> {
            &&& member_of(stats, "schema_version"@) == Some(
                JsonModel::Text("ftw-sd-emulator-stats-v1"@),
            )
            &&& member_of(check, "format"@) == Some(JsonModel::Text("ftwdb-integrity-v1"@))
            &&& has_number(check, "raw_points"@)
            &&& has_number(check, "raw_commits"@)
            &&& has_number(check, "raw_recovered_tail_bytes"@)
            &&& has_text(check, "raw_recovered_tail"@)
            &&& input.inspect is Ok && recovered_tail_of((input.inspect->Ok_0)@) is Ok
            &&& has_number(stats, "injected_torn_operations"@)
            &&& has_number(stats, "injected_torn_bytes"@)
            &&& has_number(stats, "torn_operations"@)
            &&& has_number(stats, "torn_bytes"@)
            &&& has_number(stats, "injected_eio_operations"@)
            &&& has_number(stats, "injected_corruptions"@)
            &&& has_number(stats, "false_flushes"@)
            &&& has_number(stats, "power_losses"@)
            &&& has_number(stats, "dropped_operations"@)
            &&& has_number(stats, "dropped_bytes"@)
            &&& input.ack_log matches Some(log) ==> log is Ok && durable_ack((log->Ok_0)@) is Ok
            &&& has_text(stats, "profile"@)
            &&& has_number(stats, "seed"@)
            &&& has_number(stats, "reordered_operations"@)
            &&& has_number(stats, "max_erase_count"@)
            &&& has_number(stats, "bad_blocks"@)
            &&& has_text(stats, "emulator_version"@)
            &&& has_text(stats, "emulator_commit"@)
        },
{
}

} // verus!
