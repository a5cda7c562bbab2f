//! Storage formats, catalog rules and the shadow ingest protocol of an embedded
//! energy time-series database, with a deterministic SD-card emulator beside it.
pub mod aggregate;
pub mod bench_command;
pub mod bytes;
pub mod calendar_rollup;
pub mod card_laws;
pub mod catalog;
pub mod catalog_laws;
pub mod checksum;
pub mod columns;
pub mod command_laws;
pub mod counting;
pub mod dependencies;
pub mod error;
pub mod fault_laws;
pub mod fault_report;
pub mod fields;
pub mod json;
pub mod json_line;
pub mod lz4;
pub mod manifest;
pub mod map_keys;
pub mod model;
pub mod nbd;
pub mod nbd_laws;
pub mod point_keys;
pub mod point_sort;
pub mod protocol_laws;
pub mod real_fixture;
pub mod reconcile_command;
pub mod reconcile_laws;
pub mod reconcile_sums;
pub mod rollup;
pub mod rollup_laws;
pub mod rollup_segment;
pub mod runtime_laws;
pub mod safe_path;
pub mod sameness;
pub mod sd_card;
pub mod sd_command;
pub mod sd_profile;
pub mod sd_random;
pub mod segment;
pub mod segment_laws;
pub mod server_laws;
pub mod shadow_protocol;
pub mod shadow_reconcile;
pub mod shadow_runtime;
pub mod shadow_server;
pub mod snapshot;
pub mod storage;
pub mod storage_laws;
pub mod store_reports;
pub mod text;
pub mod text_laws;
pub mod text_map;
pub mod text_scan;
pub mod transaction;
pub mod varint;
pub mod window_laws;
pub mod wire;
pub mod wire_forms;
pub mod wire_records;
