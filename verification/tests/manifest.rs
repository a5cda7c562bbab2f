use ftwdb::error::Error;
use ftwdb::manifest::{
    manifest_file, manifest_generation, manifest_name, manifest_payload, newest_first,
    validate_manifest, Manifest, RollupDescriptor, MANIFEST_HEADER_BYTES,
};
use ftwdb::model::RollupResolution;

fn manifest(generation: u64) -> Manifest {
    Manifest {
        generation,
        rollups: vec![RollupDescriptor {
            file: "one.rseg".to_owned(),
            series_id: 1,
            resolution: RollupResolution::FixedMicros(300_000_000),
            start: 0,
            end: 300_000_000,
            source_commit: 2,
            source_points: 10,
            active: true,
        }],
    }
}

/// A directory of published manifests. An encoding is the generation alone.
fn published(generations: &[u64]) -> Vec<(String, Vec<u8>)> {
    generations
        .iter()
        .map(|generation| {
            let payload = generation.to_le_bytes();
            (manifest_name(*generation), manifest(*generation).publish(&payload).unwrap())
        })
        .collect()
}

fn load(files: &[(String, Vec<u8>)]) -> Result<Manifest, Error> {
    let names: Vec<String> = files.iter().map(|(name, _)| name.clone()).collect();
    Manifest::load(
        newest_first(&names)
            .into_iter()
            .map(|(generation, place)| {
                let payload = manifest_payload(&files[place].1)?;
                manifest(u64::from_le_bytes(payload.try_into().unwrap())).accept(generation)
            })
            .collect(),
    )
}

#[test]
fn loads_the_highest_valid_generation() {
    let files = published(&[1, 2]);
    assert_eq!(load(&files).unwrap().generation, 2);
}

#[test]
fn falls_back_when_the_newest_generation_is_torn() {
    let mut files = published(&[1, 2]);
    assert_eq!(files[1].0, "MANIFEST.00000000000000000002");
    files[1].1[30] = 0xFF;
    assert_eq!(load(&files).unwrap().generation, 1);
}

#[test]
fn a_directory_without_manifests_is_empty() {
    assert_eq!(load(&[]).unwrap(), Manifest::default());
    let other = vec![("raw.wlog".to_owned(), Vec::new())];
    assert_eq!(load(&other).unwrap(), Manifest::default());
    let mut torn = published(&[5]);
    torn[0].1.truncate(MANIFEST_HEADER_BYTES);
    assert!(load(&torn).is_err());
}

#[test]
fn a_manifest_keeps_the_generation_of_its_name() {
    let mut files = published(&[1, 2]);
    files[1].0 = manifest_name(7);
    assert_eq!(load(&files[..1]).unwrap().generation, 1);
    assert_eq!(
        load(&files[1..]).unwrap_err(),
        Error::Corruption {
            offset: 0,
            reason: "manifest generation does not match its filename".to_owned(),
        }
    );
}

#[test]
fn manifest_files_are_read_back() {
    let file = manifest_file(b"payload").unwrap();
    assert_eq!(manifest_payload(&file).unwrap(), b"payload");
    for place in (0..8).chain(MANIFEST_HEADER_BYTES..file.len()) {
        let mut torn = file.clone();
        torn[place] ^= 0x40;
        assert!(manifest_payload(&torn).is_err());
    }
    assert!(manifest_payload(&file[..20]).is_err());
}

#[test]
fn manifest_names_hold_their_generation() {
    assert_eq!(manifest_generation(&manifest_name(0)), Some(0));
    assert_eq!(manifest_generation(&manifest_name(u64::MAX)), Some(u64::MAX));
    assert_eq!(manifest_generation("MANIFEST.x"), None);
    assert_eq!(manifest_generation("manifest.1"), None);
    let names: Vec<String> = ["MANIFEST.3", "x", "MANIFEST.10"].map(str::to_owned).to_vec();
    assert_eq!(newest_first(&names), vec![(10, 2), (3, 0)]);
}

#[test]
fn manifests_with_unsafe_rollups_are_refused() {
    for file in ["", "../one.rseg", "/one.rseg", "a/b.rseg"] {
        let mut bad = manifest(1);
        bad.rollups[0].file = file.to_owned();
        assert!(matches!(validate_manifest(&bad), Err(Error::InvalidModel(_))));
        assert!(matches!(bad.publish(&[]), Err(Error::InvalidModel(_))));
    }
    let mut backwards = manifest(1);
    backwards.rollups[0].end = 0;
    assert!(validate_manifest(&backwards).is_err());
    validate_manifest(&manifest(1)).unwrap();
}
