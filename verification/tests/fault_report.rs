use ftwdb::fault_report::{
    last_durable_ack, parse_recovered_tail, verify, AckWatermark, NamedText, VerifyError,
    VerifyInput,
};
use ftwdb::model::FloatBits;

const STATS: &str = "{\"stats\":{\"schema_version\":\"ftw-sd-emulator-stats-v1\",\"profile\":\"test\",\"seed\":42,\"last_fault_kind\":\"power_loss\",\"last_fault_offset\":4096,\"last_fault_operation\":12,\"injected_torn_operations\":1,\"injected_torn_bytes\":10,\"torn_operations\":2,\"torn_bytes\":20,\"injected_eio_operations\":0,\"injected_corruptions\":0,\"false_flushes\":1,\"power_losses\":1,\"dropped_operations\":3,\"dropped_bytes\":30,\"reordered_operations\":4,\"max_erase_count\":5,\"bad_blocks\":0,\"emulator_version\":\"0.1.0\",\"emulator_commit\":\"abc\"}}";

const HEALTHY: &str = "{\"schema_version\":\"ftw-sd-emulator-stats-v1\",\"profile\":\"healthy\",\"seed\":1,\"injected_torn_operations\":0,\"injected_torn_bytes\":0,\"torn_operations\":0,\"torn_bytes\":0,\"injected_eio_operations\":0,\"injected_corruptions\":0,\"false_flushes\":0,\"power_losses\":1,\"dropped_operations\":0,\"dropped_bytes\":0,\"reordered_operations\":0,\"max_erase_count\":0,\"bad_blocks\":0,\"write_amplification\":1.5,\"emulator_version\":\"0.1.0\",\"emulator_commit\":\"abc\"}";

fn bits(value: f64) -> FloatBits {
    FloatBits(value.to_bits())
}

fn ack(commits: u64, points: u64) -> String {
    format!(
        "{{\"format\":\"ftwdb-ack-watermark-v1\",\"commits\":{commits},\"points\":{points},\"durable\":true}}\n"
    )
}

#[test]
fn recovered_tail_parser_rejects_missing_field() {
    assert!(parse_recovered_tail("points: 10\n").is_err());
    assert_eq!(
        parse_recovered_tail("recovered_tail_bytes: 39\n").unwrap(),
        39
    );
}

#[test]
fn verification_compares_the_acknowledged_watermark() {
    let check = "{\"format\":\"ftwdb-integrity-v1\",\"raw_points\":100,\"raw_commits\":10,\"raw_recovered_tail_bytes\":39,\"raw_recovered_tail\":\"incomplete-header\"}\n";
    let input = VerifyInput {
        emulator: NamedText { name: "emulator.json", contents: Ok(STATS) },
        check: NamedText { name: "check.json", contents: Ok(check) },
        inspect: Ok("recovered_tail_bytes: 39\n"),
        expected_points: 100,
        expected_commits: 10,
        writer_exit: Some(1),
        writer_signal: None,
        checksum_ok: Some(true),
        ack_log: None,
        max_in_flight_commits: 0,
        max_in_flight_points: 0,
    };
    let report = verify(&input, bits(0.0)).unwrap();
    assert!(report.passed);
    assert_eq!(report.injected_operations, 3);
    assert_eq!(report.torn_operations, 3);
    assert_eq!(report.injected_bytes, 60);

    let failed = verify(
        &VerifyInput {
            expected_points: 101,
            ..input
        },
        bits(0.0),
    )
    .unwrap();
    assert!(!failed.passed);
}

#[test]
fn last_durable_ack_skips_a_truncated_final_line() {
    let ack = last_durable_ack(concat_lines(&[
        "{\"format\":\"ftwdb-ack-watermark-v1\",\"commits\":1,\"points\":10,\"durable\":true}\n",
        "{\"format\":\"ftwdb-ack-watermark-v1\",\"commits\":2,\"points\":20,\"durable\":true}\n",
        "{\"format\":\"ftwdb-ack-watermark-v1\",\"commits\":3,\"poi",
    ]).as_str())
    .unwrap();
    assert_eq!(ack.commits, 2);
    assert_eq!(ack.points, 20);

    let ack = last_durable_ack(concat_lines(&[
        "{\"format\":\"ftwdb-ack-watermark-v1\",\"commits\":1,\"points\":10,\"durable\":true}\n",
        "{\"format\":\"ftwdb-ack-watermark-v1\",\"commits\":2,\"points\":20,\"durable\":true}",
    ]).as_str())
    .unwrap();
    assert_eq!(ack.commits, 1);
    assert_eq!(ack.points, 10);
}

fn concat_lines(lines: &[&str]) -> String {
    lines.concat()
}

#[test]
fn last_durable_ack_rejects_malformed_complete_and_regressing_lines() {
    let first =
        "{\"format\":\"ftwdb-ack-watermark-v1\",\"commits\":2,\"points\":20,\"durable\":true}\n";
    assert!(last_durable_ack(&format!("{first}not-json\n")).is_err());
    assert!(last_durable_ack(&format!(
        "{first}{{\"format\":\"ftwdb-ack-watermark-v1\",\"commits\":1,\"points\":10,\"durable\":true}}\n"
    ))
    .is_err());
    assert!(last_durable_ack(&format!(
        "{first}{{\"format\":\"wrong\",\"commits\":3,\"points\":30,\"durable\":true}}\n"
    ))
    .is_err());
}

#[test]
fn mid_commit_verify_accepts_one_in_flight_batch_and_rejects_lost_acks() {
    let check = "{\"format\":\"ftwdb-integrity-v1\",\"raw_points\":30,\"raw_commits\":3,\"raw_recovered_tail_bytes\":7,\"raw_recovered_tail\":\"incomplete-header\"}\n";
    let one = ack(2, 20);
    let input = VerifyInput {
        emulator: NamedText { name: "emulator.json", contents: Ok(HEALTHY) },
        check: NamedText { name: "check.json", contents: Ok(check) },
        inspect: Ok("recovered_tail_bytes: 7\n"),
        expected_points: 0,
        expected_commits: 0,
        writer_exit: Some(1),
        writer_signal: None,
        checksum_ok: Some(true),
        ack_log: Some(Ok(&one)),
        max_in_flight_commits: 1,
        max_in_flight_points: 10,
    };
    let report = verify(&input, bits(1.5)).unwrap();
    assert!(report.passed);
    assert!(report.contains_every_ack);
    assert!(report.has_at_most_one_unacknowledged);
    assert!(!report.silent_partial_frame);
    assert_eq!(report.in_flight_commits, 1);
    assert_eq!(f64::from_bits(report.write_amplification.0), 1.5);

    let four = ack(4, 40);
    let lost = verify(
        &VerifyInput {
            emulator: NamedText { name: "emulator.json", contents: Ok(HEALTHY) },
            check: NamedText { name: "check.json", contents: Ok(check) },
            ack_log: Some(Ok(&four)),
            ..input
        },
        bits(1.5),
    )
    .unwrap();
    assert!(!lost.passed);
    assert!(!lost.contains_every_ack);

    let single = ack(1, 10);
    let whole = "{\"format\":\"ftwdb-integrity-v1\",\"raw_points\":40,\"raw_commits\":4,\"raw_recovered_tail_bytes\":0,\"raw_recovered_tail\":\"none\"}\n";
    let extra = verify(
        &VerifyInput {
            emulator: NamedText { name: "emulator.json", contents: Ok(HEALTHY) },
            check: NamedText { name: "check.json", contents: Ok(whole) },
            inspect: Ok("recovered_tail_bytes: 0\n"),
            expected_points: 0,
            expected_commits: 0,
            writer_exit: Some(1),
            writer_signal: None,
            checksum_ok: Some(true),
            ack_log: Some(Ok(&single)),
            max_in_flight_commits: 1,
            max_in_flight_points: 10,
        },
        bits(1.5),
    )
    .unwrap();
    assert!(!extra.passed);
    assert!(!extra.has_at_most_one_unacknowledged);
}

#[test]
fn acknowledgements_may_only_grow() {
    let log = format!("{}{}", ack(1, 10), ack(3, 30));
    let last = last_durable_ack(&log).unwrap();
    assert_eq!(last, AckWatermark { commits: 3, points: 30, durable: true });
    let error = last_durable_ack("").unwrap_err();
    assert!(!error.message().is_empty());
    let tail: Result<u64, VerifyError> = parse_recovered_tail("recovered_tail_bytes: x\n");
    assert!(tail.is_err());
}

#[test]
fn files_that_cannot_be_read_are_told_in_their_turn() {
    let input = VerifyInput {
        emulator: NamedText { name: "emulator.json", contents: Ok("no json\n") },
        check: NamedText { name: "check.json", contents: Err("no such file") },
        inspect: Err("no such file"),
        expected_points: 0,
        expected_commits: 0,
        writer_exit: None,
        writer_signal: None,
        checksum_ok: None,
        ack_log: None,
        max_in_flight_commits: 0,
        max_in_flight_points: 0,
    };
    assert!(matches!(verify(&input, bits(0.0)), Err(VerifyError::Json(_))));
    let input = VerifyInput {
        emulator: NamedText { name: "emulator.json", contents: Ok(STATS) },
        ..input
    };
    let error = verify(&input, bits(0.0)).unwrap_err();
    assert_eq!(error, VerifyError::Io("no such file".to_owned()));
    assert_eq!(error.message(), "I/O error: no such file");
}
