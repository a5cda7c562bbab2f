use ftwdb::error::Error;
use ftwdb::safe_path::{is_safe_relative, is_single_component};
use ftwdb::snapshot::{
    check_prefix_selected, rollback_after, snapshot_digest, stage_name, FileIdentity,
    PublishedDirectory, SnapshotFile, SnapshotHasher,
};

fn files(selected: &[(&str, &[u8])]) -> Vec<SnapshotFile> {
    selected
        .iter()
        .map(|(path, contents)| SnapshotFile {
            path: (*path).to_owned(),
            contents: contents.to_vec(),
        })
        .collect()
}

#[test]
fn digest_ignores_unselected_files_and_changes_with_paths_lengths_or_bytes() {
    let selected = files(&[("nested/two", b"second"), ("one", b"first")]);
    let first = snapshot_digest(&selected).unwrap();
    assert_eq!((first.files, first.bytes), (2, 11));
    assert_eq!(snapshot_digest(&selected).unwrap(), first);

    let changed = files(&[("nested/two", b"second"), ("one", b"different")]);
    assert_ne!(snapshot_digest(&changed).unwrap(), first);
    let renamed = files(&[("nested/two", b"second"), ("six", b"first")]);
    assert_ne!(snapshot_digest(&renamed).unwrap(), first);
    let moved = files(&[("nested/two", b"secondf"), ("one", b"irst")]);
    assert_ne!(snapshot_digest(&moved).unwrap(), first);
}

#[test]
fn digest_rejects_unsafe_unsorted_and_duplicate_paths() {
    for paths in [
        files(&[("../one", b"first")]),
        files(&[("/one", b"first")]),
        files(&[("two", b"second"), ("one", b"first")]),
        files(&[("one", b"first"), ("one", b"first")]),
    ] {
        assert!(snapshot_digest(&paths).is_err());
    }
}

#[test]
fn a_file_read_in_pieces_has_the_same_digest() {
    let whole = snapshot_digest(&files(&[("log", b"abcdef")])).unwrap();
    let mut hasher = SnapshotHasher::new();
    hasher.select("log").unwrap();
    hasher.start(6).unwrap();
    hasher.take(b"abc").unwrap();
    hasher.take(b"def").unwrap();
    hasher.end(false).unwrap();
    assert_eq!(hasher.finish(), whole);
}

#[test]
fn a_file_too_long_to_count_changes_nothing() {
    let whole = snapshot_digest(&files(&[("log", b"ab")])).unwrap();
    let mut hasher = SnapshotHasher::new();
    hasher.select("log").unwrap();
    hasher.start(2).unwrap();
    hasher.take(b"ab").unwrap();
    hasher.end(false).unwrap();
    hasher.select("rest").unwrap();
    let error = hasher.start(u64::MAX - 1).unwrap_err();
    assert!(error.message().ends_with("snapshot byte count exceeds u64"));
    assert_eq!(hasher.finish(), whole);
}

#[test]
fn files_that_change_while_they_are_read_are_refused() {
    let mut hasher = SnapshotHasher::new();
    hasher.select("log").unwrap();
    hasher.start(2).unwrap();
    let error = hasher.take(b"").unwrap_err();
    assert!(error.message().ends_with("snapshot file changed while reading log"));
    hasher.take(b"ab").unwrap();
    let error = hasher.end(true).unwrap_err();
    assert!(error.message().ends_with("snapshot file grew while reading log"));
}

#[test]
fn rollback_failure_reports_that_the_published_target_may_remain() {
    let error = rollback_after(
        Error::Io("post-check failed".to_owned()),
        Err(Error::Io("directory exists".to_owned())),
        "target".to_owned(),
    );
    match error {
        Error::SnapshotPublication { path, reason } => {
            assert_eq!(path, "target");
            assert!(reason.contains("post-check failed"));
            assert!(reason.contains("rollback failed"));
        }
        other => panic!("expected an explicit rollback failure, got {other:?}"),
    }
    assert_eq!(rollback_after(Error::ReadOnly, Ok(()), "target".to_owned()), Error::ReadOnly);
}

#[test]
fn only_the_directory_that_was_published_is_rolled_back() {
    let own = FileIdentity { device: 1, inode: 2 };
    let publication = PublishedDirectory::new(own);
    assert!(publication.may_roll_back(&own).unwrap());
    assert!(publication.may_roll_back(&FileIdentity { device: 1, inode: 3 }).is_err());
    let gone = PublishedDirectory { at_destination: false, ..publication };
    assert!(!gone.may_roll_back(&own).unwrap());
}

#[test]
fn stages_are_named_after_their_target() {
    assert_eq!(stage_name("target", "backup", 7, 8, 9, 10), ".target.backup-7-8-9-10");
}

#[test]
fn a_prefix_must_be_selected() {
    let paths = vec!["MANIFEST.1".to_owned(), "raw.wlog".to_owned()];
    check_prefix_selected(&paths, "raw.wlog").unwrap();
    assert!(check_prefix_selected(&paths, "other").is_err());
}

#[test]
fn paths_that_leave_a_directory_are_unsafe() {
    for path in ["a", "a/b", "a/b/c.d"] {
        assert!(is_safe_relative(path), "{path}");
    }
    for path in ["", "/a", "..", "a/..", "../a"] {
        assert!(!is_safe_relative(path), "{path}");
    }
    assert!(is_single_component("a"));
    assert!(!is_single_component("a/b"));
    assert!(!is_single_component(".."));
}
