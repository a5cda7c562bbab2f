# ftwdb

An embedded time-series database for energy data, with its logic verified by Verus.

- `src/` is the library. Its functions state what they return or change, and Verus
  proves it; the few that call another crate are named below. The public proof functions
  state what holds of several functions together: what a read gives back of a write, what
  every operation keeps, what a refused request leaves unchanged.
- `tests/` runs the library on concrete values, with the real compression, checksum,
  time zone and JSON crates behind it.
- `app/` is ordinary Rust around the library: files, sockets, threads, signals, command
  lines, serialisation of the library's types, and floating-point arithmetic.

## The library

| Modules | What they hold |
| --- | --- |
| `model`, `transaction`, `catalog`, `dependencies` | entities, relations, series, runs and plans, and the rules that a catalog keeps |
| `columns`, `varint`, `lz4`, `checksum`, `fields`, `segment`, `rollup_segment`, `point_sort` | how points and buckets are stored |
| `rollup`, `calendar_rollup`, `aggregate` | buckets of fixed length, buckets of the calendar, and running aggregates |
| `manifest`, `snapshot`, `safe_path` | manifest files, snapshot digests, and paths below a store |
| `wire`, `wire_records`, `wire_forms`, `shadow_protocol`, `shadow_server`, `shadow_runtime` | the frames of the shadow writer, its sessions, and its queue |
| `shadow_reconcile`, `reconcile_sums`, `point_keys`, `map_keys`, `sameness`, `reconcile_command` | the comparison of a store with what was sent to it |
| `sd_profile`, `sd_random`, `sd_card`, `nbd`, `fault_report`, `sd_command` | the SD card emulator and the verdict on a fault run |
| `real_fixture`, `bench_command`, `store_reports` | loading recorded data, benchmarks, and reports |
| `bytes`, `text`, `text_map`, `text_scan`, `json`, `json_line`, `error`, `storage` | what the others are written with |

A floating-point number is held by its bits (`FloatBits`). Functions that need a sum, a
minimum or an integral take it as an argument, and `app/` computes it. A map keyed by text
is a `TextMap`: entries with distinct keys in ascending order, which its type keeps.

## What is not proved

The contracts of a few small functions are believed, not proved: those that call
`crc32fast`, `lz4_flex`, `serde_json`, `jiff`, and two functions of std. Each says in its
doc comment what it claims. Of where the edges of a calendar bucket lie nothing is claimed:
the library checks that they hold the time that was asked for, and takes them as they come.
