use ftwdb::bench_command::{
    ack_line, bench_line, bench_options, durability_name, fixture_line, generate_options,
    maintain_options, parse_every_bytes, repeated_checksum, rows_line, salvage_options,
    workload_end, BenchCommand, BenchOptions, LoadMeasures, RowLoad, StoreBench, WorkloadSetting,
};
use ftwdb::fault_report::parse_recovered_tail;
use ftwdb::json_line::JsonLine;
use ftwdb::model::{FloatBits, Point};
use ftwdb::real_fixture::RealFixtureLoadReport;
use ftwdb::reconcile_command::{
    add_with_limit, collect_arguments, decode_hex, hex_digit, report_json, take_hex_file,
    FrameTotals, MAX_HEX_FILE_BYTES,
};
use ftwdb::sd_command::{
    control_accepted, parse_bool, parse_control, parse_control_target, parse_i32,
    parse_serve_options, parse_u64, parse_verify_options, OptionFault,
};
use ftwdb::shadow_protocol::{encode, CommitBatchRequest, HealthRequest, Request, WireMessage};
use ftwdb::shadow_reconcile::{ShadowReconcileLimits, ShadowReconciliationReport};
use ftwdb::storage::Durability;
use ftwdb::store_reports::{
    backup_report_json, database_report_text, integrity_report_json, io_error_kind_name,
    maintain_report_json, restore_report_json, salvage_report_json, seal_report_json,
    workload_report_json, BackupReport, DatabaseReport, IntegrityReport, LinkErrorKind,
    MaintenanceReport, RestoreReport, SalvageReport, SealReport, WorkloadReport,
};
use ftwdb::text_scan::IntegerFault;

fn words(text: &str) -> Vec<String> {
    text.split(' ').filter(|word| !word.is_empty()).map(str::to_owned).collect()
}

#[test]
fn bounded_hex_decoder_rejects_bad_input() {
    assert_eq!(decode_hex("00aF").unwrap(), [0, 0xaf]);
    assert!(decode_hex("0").is_err());
    assert!(decode_hex("0g").is_err());
    assert_eq!(hex_digit(b'F'), Ok(15));
    assert!(hex_digit(b'/').is_err());
}

#[test]
fn argument_file_and_total_limits_apply_before_reconciliation() {
    let error = collect_arguments(words("store one.hex two.hex three.hex"), 2).unwrap_err();
    assert!(error.contains("frame count"));
    assert_eq!(
        collect_arguments(words("store one.hex two.hex"), 2),
        Ok(("store".to_owned(), words("one.hex two.hex")))
    );
    assert!(collect_arguments(Vec::new(), 2).is_err());
    assert!(collect_arguments(words("store"), 2).is_err());

    assert_eq!(add_with_limit(3, 2, 5, "items").unwrap(), 5);
    assert!(add_with_limit(5, 1, 5, "items").is_err());
    assert!(add_with_limit(usize::MAX, 1, usize::MAX, "items").is_err());
}

#[test]
fn report_line_is_stable_json() {
    let report = ShadowReconciliationReport {
        expected_batches: 2,
        receipt_payload_mismatches: 1,
        scanned_points: 3,
        missing_points: 1,
        mismatch_groups: 2,
        ..ShadowReconciliationReport::default()
    };
    let line = report_json(&report);
    assert!(line.starts_with("{\"content_matches\":false,"));
    assert!(line.contains("\"expected_batches\":2"));
    assert!(line.contains("\"receipt_payload_mismatches\":1"));
    assert!(line.contains("\"scanned_points\":3"));
    assert!(line.contains("\"missing_points\":1"));
    assert!(line.ends_with("\"details_truncated\":false}"));
}

fn hex_text(bytes: &[u8]) -> String {
    bytes.iter().map(|byte| format!("{byte:02x}")).collect()
}

#[test]
fn frames_of_batches_are_counted() {
    let batch = CommitBatchRequest {
        source_id: 7,
        sequence: 1,
        commit_id: 2,
        entities: Vec::new(),
        relations: Vec::new(),
        series: Vec::new(),
        runs: Vec::new(),
        plans: Vec::new(),
        points: vec![Point::actual(3, 4, FloatBits(0))],
    };
    let frame = encode(&WireMessage::Request(Request::CommitBatch(batch))).unwrap();
    let limits = ShadowReconcileLimits::default();
    let mut totals = FrameTotals { frame_bytes: 0, metadata_records: 0, points: 0 };
    let text = format!("{}\n", hex_text(&frame));
    let found = totals.take_frame(&limits, "one.hex", &text).unwrap();
    assert_eq!((found.source_id, found.commit_id), (7, 2));
    assert_eq!((totals.frame_bytes, totals.points), (frame.len(), 1));

    let health = WireMessage::Request(Request::Health(HealthRequest { nonce: 1 }));
    let other = hex_text(&encode(&health).unwrap());
    let before = totals;
    assert!(totals.take_frame(&limits, "two.hex", &other).unwrap_err().contains("two.hex"));
    assert!(totals.take_frame(&limits, "two.hex", "zz").is_err());
    assert_eq!(totals, before);
}

#[test]
fn backup_json_uses_fixed_error_kind_names() {
    let report = BackupReport {
        files: 4,
        bytes: 123,
        manifest_generation: 7,
        linked_files: 2,
        copied_files: 2,
        hard_link_fallbacks: 1,
        hard_link_fallback_error_kinds: vec![LinkErrorKind::CrossesDevices],
    };
    assert_eq!(
        backup_report_json(&report),
        "{\"format\":\"ftwdb-backup-v1\",\"files\":4,\"bytes\":123,\"manifest_generation\":7,\"linked_files\":2,\"copied_files\":2,\"hard_link_fallbacks\":1,\"hard_link_fallback_error_kinds\":[\"crosses-devices\"]}"
    );
    assert_eq!(io_error_kind_name(LinkErrorKind::Other), "other");
}

#[test]
fn restore_json_has_versioned_checksums_and_counts() {
    let report = RestoreReport {
        files: 4,
        bytes: 123,
        manifest_generation: 7,
        raw_commits: 8,
        raw_points: 9,
        source_snapshot_crc32: 0x0123_abcd,
        destination_snapshot_crc32: 0x0123_abcd,
    };
    assert_eq!(
        restore_report_json(&report),
        "{\"format\":\"ftwdb-restore-v1\",\"files\":4,\"bytes\":123,\"manifest_generation\":7,\"raw_commits\":8,\"raw_points\":9,\"source_snapshot_crc32\":\"0123abcd\",\"destination_snapshot_crc32\":\"0123abcd\"}"
    );
}

#[test]
fn salvage_json_has_fixed_status_reason_checksums_and_counts() {
    let report = SalvageReport {
        status: "partial".to_owned(),
        source_bytes: 130,
        recovered_prefix_bytes: 123,
        discarded_bytes: 7,
        stop_offset: 123,
        stop_reason: "incomplete-frame-header".to_owned(),
        recovered_commits: 8,
        recovered_points: 9,
        source_prefix_crc32: 0x0123_abcd,
        destination_snapshot_crc32: 0x0123_abcd,
    };
    assert_eq!(
        salvage_report_json(&report),
        "{\"format\":\"ftwdb-salvage-v1\",\"status\":\"partial\",\"source_bytes\":130,\"recovered_prefix_bytes\":123,\"discarded_bytes\":7,\"stop_offset\":123,\"stop_reason\":\"incomplete-frame-header\",\"recovered_commits\":8,\"recovered_points\":9,\"source_prefix_crc32\":\"0123abcd\",\"destination_snapshot_crc32\":\"0123abcd\"}"
    );
}

#[test]
fn seal_and_maintenance_reports_are_json_lines() {
    let seal = seal_report_json(&SealReport {
        manifest_generation: 3,
        segment_file: "raw-3.seg".to_owned(),
        sealed_points: 10,
        live_points: 2,
        segment_bytes: 99,
        log_bytes: 7,
    });
    assert!(seal.contains("\"raw-3.seg\""));
    assert!(seal.contains(":10"));
    let maintenance = maintain_report_json(&MaintenanceReport {
        manifest_generation: 4,
        rollup_files_written: 1,
        rollup_buckets_written: 12,
        rollup_bytes_written: 640,
        retention_gates: 0,
    });
    assert!(maintenance.contains(":640"));
    for line in [seal, maintenance] {
        assert!(line.starts_with('{') && line.ends_with('}'));
    }
}

#[test]
fn json_lines_hold_their_members_in_order() {
    let mut line = JsonLine::new();
    line.number("a", 1);
    line.signed("b", -2);
    line.boolean("c", true);
    line.text("d", "x");
    line.checksum("e", 0xab);
    line.raw("f", "[]");
    assert_eq!(
        line.finish(),
        "{\"a\":1,\"b\":-2,\"c\":true,\"d\":\"x\",\"e\":\"000000ab\",\"f\":[]}"
    );
}

#[test]
fn bench_options_are_read_in_order() {
    let options = bench_options(BenchCommand::Ftwdb, &words("in out"), 20_000).unwrap();
    assert_eq!(options, BenchOptions { durability: Durability::Always, batch: 10_000, ack_log: None });
    assert_eq!(durability_name(Durability::EveryBytes(5)), "every-bytes:5");
    assert_eq!(parse_every_bytes("12"), Ok(12));
    assert!(parse_every_bytes("0").is_err());
    assert!(bench_options(BenchCommand::Ftwdb, &words("in"), 20_000).is_err());
    assert!(bench_options(BenchCommand::RealFixture, &words("in out --what"), 20_000).is_err());
}

#[test]
fn bench_lines_name_what_was_measured() {
    let options = BenchOptions { durability: Durability::Manual, batch: 10, ack_log: None };
    let measures = LoadMeasures {
        ingest_seconds: "1.500000000".to_owned(),
        points_per_second: "2.000".to_owned(),
        stored_bytes: 44,
        bytes_per_point: "11.000".to_owned(),
    };
    let report = RealFixtureLoadReport {
        points: 4,
        commits: 2,
        commits_durable_immediately: 0,
        entities: 2,
        series: 3,
        input_bytes: 9,
        input_crc32: 1,
        points_crc32: 2,
        first_offset_millis: -5,
        last_offset_millis: 20,
    };
    let line = fixture_line(&options, &report, &measures);
    assert!(line.contains("-5") && line.contains("1.500000000") && line.contains("\"manual\""));
    let load = RowLoad {
        rows: 31,
        points: 4,
        entities: 2,
        series: 3,
        commits: 2,
        commits_durable_immediately: 0,
        input_bytes: 9,
        input_crc32: 1,
        points_crc32: 2,
    };
    assert!(rows_line(&options, &load, "7.000", &measures).contains(":31"));
    let bench = StoreBench {
        dataset_crc32: 1,
        result_crc32: 0xabcd,
        points: 12,
        ingest_seconds: "1.0".to_owned(),
        points_per_second: "12.0".to_owned(),
        maintenance_seconds: "2.0".to_owned(),
        rollup_files_written: 3,
        cold_query_seconds: "0.5".to_owned(),
        warm_query_seconds: "0.25".to_owned(),
        query_buckets: 6,
        stored_bytes: 77,
    };
    assert!(bench_line(&options, &bench).contains("0000abcd"));
    assert!(ack_line(3, 30, true).contains("30"));
}

#[test]
fn maintenance_and_salvage_options_are_read() {
    let options = maintain_options(&words("store --now-micros -5")).unwrap();
    assert_eq!((options.store.as_str(), options.now_micros), ("store", Some(-5)));
    assert_eq!(
        maintain_options(&words("store --now-micros")).unwrap_err(),
        "maintain --now-micros requires a value"
    );
    assert_eq!(maintain_options(&[].to_vec()).unwrap_err(), "maintain requires one store directory");
    let options = salvage_options(&words("broken fresh --drop-orphan-segments")).unwrap();
    assert_eq!((options.source.as_str(), options.target.as_str()), ("broken", "fresh"));
    assert!(options.drop_orphan_segments);
    assert!(salvage_options(&words("broken")).is_err());
}

#[test]
fn workload_settings_hold_up_to_the_first_fault() {
    let options = generate_options(&words("out --seed 9 --days 2 --colour red")).unwrap();
    assert_eq!(options.output, "out");
    assert_eq!(
        options.settings,
        vec![(WorkloadSetting::Seed, "9".to_owned()), (WorkloadSetting::Days, "2".to_owned())]
    );
    assert_eq!(options.fault.as_deref(), Some("unknown generate option --colour"));
    let options = generate_options(&words("out --sites")).unwrap();
    assert_eq!(options.fault.as_deref(), Some("missing value for --sites"));
    assert_eq!(WorkloadSetting::CadenceSeconds.option(), "--cadence-seconds");
    assert_eq!(
        generate_options(&Vec::new()).unwrap_err(),
        "generate requires an output directory"
    );
}

#[test]
fn checks_and_inspections_are_told() {
    let line = integrity_report_json(&IntegrityReport {
        manifest_generation: 1,
        raw_points: 2,
        raw_commits: 3,
        raw_recovered_tail_bytes: 4,
        raw_recovered_tail: "incomplete-header".to_owned(),
        active_rollup_files: 5,
        active_rollup_buckets: 6,
        active_rollup_bytes: 7,
        stale_rollup_files: 8,
    });
    assert_eq!(
        line,
        "{\"format\":\"ftwdb-integrity-v1\",\"manifest_generation\":1,\"raw_points\":2,\"raw_commits\":3,\"raw_recovered_tail_bytes\":4,\"raw_recovered_tail\":\"incomplete-header\",\"active_rollup_files\":5,\"active_rollup_buckets\":6,\"active_rollup_bytes\":7,\"stale_rollup_files\":8}"
    );
    let text = database_report_text(&DatabaseReport {
        points: 1,
        commits: 2,
        series: 3,
        catalog_records: 4,
        file_bytes: 5,
        recovered_tail_bytes: 6,
        recovered_tail: "none".to_owned(),
    });
    assert_eq!(
        text,
        "format: ftwdb-v1\npoints: 1\ncommits: 2\nseries: 3\ncatalog_records: 4\nfile_bytes: 5\nrecovered_tail_bytes: 6\nrecovered_tail: none\n"
    );
    assert_eq!(parse_recovered_tail(&text), Ok(6));
    let line = workload_report_json(&WorkloadReport {
        seed: 42,
        entities: 1,
        series: 2,
        runs: 3,
        plans: 4,
        points: 5,
        crc32: 0xbeef,
    });
    assert!(line.starts_with("{\"format\":\"ftwdb-energy-workload-v1\",\"seed\":42,"));
    assert!(line.ends_with("\"crc32\":\"0000beef\"}"));
}

#[test]
fn emulator_options_are_read() {
    let options = parse_serve_options(&words("--config a.json --backing card.img --seed 9")).unwrap();
    assert_eq!(options.config.as_deref(), Some("a.json"));
    assert_eq!(options.seed, 9);
    assert_eq!(options.power_loss_after_ops, None);
    assert_eq!(
        parse_serve_options(&words("--seed")).unwrap_err(),
        OptionFault::NeedsValue { flag: "--seed".to_owned() }
    );
    assert_eq!(
        parse_serve_options(&words("--colour red")).unwrap_err(),
        OptionFault::Unknown { flag: "--colour".to_owned() }
    );
    assert_eq!(
        parse_serve_options(&words("--config a.json")).unwrap_err(),
        OptionFault::Missing("serve needs --backing")
    );
    let files = "--emulator e.json --check c.json --inspect i.json";
    let counts = "--expected-points 5 --expected-commits 2";
    let text = format!("{files} {counts} --writer-exit -9 --checksum-ok true");
    let options = parse_verify_options(&words(&text)).unwrap();
    assert_eq!((options.writer_exit, options.checksum_ok), (Some(-9), Some(true)));
    assert_eq!((options.expected_points, options.expected_commits), (Some(5), Some(2)));
    assert_eq!(
        parse_verify_options(&words(files)).unwrap_err(),
        OptionFault::Missing("verify needs --expected-points")
    );
}

#[test]
fn option_values_are_checked() {
    assert_eq!(parse_u64("seed", "18446744073709551615"), Ok(u64::MAX));
    assert_eq!(
        parse_u64("seed", "18446744073709551616"),
        Err(OptionFault::BadNumber {
            name: "seed",
            value: "18446744073709551616".to_owned(),
            fault: IntegerFault::PosOverflow,
        })
    );
    assert_eq!(parse_i32("exit", "-2147483648"), Ok(i32::MIN));
    assert!(parse_i32("exit", "-2147483649").is_err());
    assert_eq!(parse_bool("ok", "false"), Ok(false));
    assert_eq!(
        parse_bool("ok", "yes"),
        Err(OptionFault::BadBool { name: "ok", value: "yes".to_owned() })
    );
    assert!(parse_control("").is_ok());
}

#[test]
fn replies_say_whether_the_command_was_carried_out() {
    assert_eq!(control_accepted("{\"ok\":true,\"command\":\"flush\"}\n"), Ok(true));
    assert_eq!(control_accepted("{\"ok\":false}"), Ok(false));
    assert_eq!(control_accepted("{\"ok\":\"true\"}"), Ok(false));
    assert_eq!(control_accepted("{}"), Ok(false));
    assert_eq!(control_accepted("[true]"), Ok(false));
    assert!(control_accepted("not json").is_err());
    assert!(control_accepted("").is_err());
}

#[test]
fn control_commands_go_to_an_address() {
    let target = |address: &str, command: &str| Ok((address.to_owned(), command.to_owned()));
    assert_eq!(parse_control_target(&words("flush")), target("127.0.0.1:10810", "flush"));
    assert_eq!(
        parse_control_target(&words("--control host:1 reset")),
        target("host:1", "reset")
    );
    for arguments in ["", "a b", "--address host:1 reset", "--control host:1 reset now"] {
        assert_eq!(
            parse_control_target(&words(arguments)),
            Err("use: ftw-sd-emulator ctl [--control HOST:PORT] COMMAND")
        );
    }
}

#[test]
fn hex_files_are_short_texts() {
    assert_eq!(take_hex_file("one.hex", b"00ff\n"), Ok("00ff\n".to_owned()));
    assert_eq!(
        take_hex_file("one.hex", &[0xff]),
        Err("one.hex is not UTF-8 hex text".to_owned())
    );
    assert_eq!(
        take_hex_file("one.hex", &vec![b'0'; MAX_HEX_FILE_BYTES + 1]),
        Err("one.hex exceeds the encoded frame limit".to_owned())
    );
}

#[test]
fn workloads_end_after_their_days() {
    assert_eq!(workload_end(5, 2), Ok(172_800_000_005));
    assert_eq!(workload_end(i64::MAX, 0), Ok(i64::MAX));
    assert_eq!(workload_end(i64::MAX, 1), Err("workload end timestamp overflow"));
    assert_eq!(workload_end(0, u32::MAX), Err("workload end timestamp overflow"));
    assert_eq!(repeated_checksum(7, 7), Ok(7));
    assert_eq!(repeated_checksum(7, 8), Err("cold and warm rollup query results differ"));
}
