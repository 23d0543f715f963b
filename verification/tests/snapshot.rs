use salamander::facade::projection::{
    PartitionScheme, ProjectionCursor, ProjectionDescriptor, ProjectionScope,
};
use salamander::sealed::{seal, unseal, SealFault, SealLimits, SEAL_BYTES};
use salamander::snapshot::{
    check_state, encode_snapshot, list_snapshots, open_snapshot, snapshot_id, surplus_snapshots, validate_id, validates,
    SnapshotExpectation, SnapshotInfo, SnapshotManifest, MAX_SNAPSHOT_STATE_BYTES, SNAPSHOT_MARK,
};

fn manifest(cursor: u64, created: i64, state: &[u8]) -> SnapshotManifest {
    SnapshotManifest {
        format_version: 1,
        database_id: [1; 16],
        projection_name: "p".into(),
        descriptor_fingerprint: [2; 16],
        definition_id: [3; 16],
        definition_version: 1,
        branch_id: [0; 16],
        branch_lineage_fingerprint: [4; 16],
        cursor: ProjectionCursor {
            database_id: [1; 16],
            branch_id: [0; 16],
            position: cursor,
            descriptor_fingerprint: [2; 16],
        },
        state_codec: 1,
        state_codec_version: 1,
        created_at_unix_nanos: created,
        uncompressed_len: state.len() as u64,
        checksum: crc32c::crc32c(state),
        partition: None,
        partition_scheme_id: None,
        partition_scheme_version: None,
        partition_count: None,
    }
}

#[test]
fn identity_validation_rejects_every_incompatible_field() {
    let state = b"state";
    let descriptor = ProjectionDescriptor {
        name: "p".into(),
        definition_id: [3; 16],
        definition_version: 1,
        input_types: Vec::new(),
        state_codec: 1,
        state_codec_version: 1,
        scope: ProjectionScope::default(),
        partition_scheme: PartitionScheme::default(),
    };
    let expected = SnapshotExpectation {
        database_id: [1; 16],
        descriptor: &descriptor,
        descriptor_fingerprint: [2; 16],
        lineage_fingerprint: [4; 16],
        maximum_cursor: 5,
        partition: None,
    };
    assert!(validates(&manifest(5, 1, state), &expected));
    let mut mutations = Vec::new();
    let mut value = manifest(5, 1, state);
    value.database_id = [9; 16];
    mutations.push(value);
    let mut value = manifest(5, 1, state);
    value.branch_id = [9; 16];
    mutations.push(value);
    let mut value = manifest(5, 1, state);
    value.branch_lineage_fingerprint = [9; 16];
    mutations.push(value);
    let mut value = manifest(5, 1, state);
    value.definition_id = [9; 16];
    mutations.push(value);
    let mut value = manifest(5, 1, state);
    value.descriptor_fingerprint = [9; 16];
    mutations.push(value);
    let mut value = manifest(5, 1, state);
    value.definition_version = 9;
    mutations.push(value);
    let mut value = manifest(5, 1, state);
    value.state_codec = 9;
    mutations.push(value);
    let mut value = manifest(5, 1, state);
    value.state_codec_version = 9;
    mutations.push(value);
    let mut value = manifest(5, 1, state);
    value.cursor.position = 6;
    mutations.push(value);
    let mut value = manifest(5, 1, state);
    value.cursor.database_id = [9; 16];
    mutations.push(value);
    let mut value = manifest(5, 1, state);
    value.cursor.branch_id = [9; 16];
    mutations.push(value);
    let mut value = manifest(5, 1, state);
    value.cursor.descriptor_fingerprint = [9; 16];
    mutations.push(value);
    for mutation in mutations {
        assert!(!validates(&mutation, &expected));
    }
}

#[test]
fn checksum_truncation_and_oversize_are_rejected_before_state_exposure() {
    let state = b"state";
    let mut bytes = encode_snapshot(b"{}", state).unwrap();
    let at = SEAL_BYTES + open_snapshot(&bytes).unwrap();
    assert_eq!(&bytes[at..], state);
    assert!(check_state(&manifest(5, 1, state), &bytes[at..]).is_ok());
    bytes.pop();
    let at = SEAL_BYTES + open_snapshot(&bytes).unwrap();
    assert!(check_state(&manifest(5, 1, state), &bytes[at..]).is_err());
    assert!(encode_snapshot(b"{}", &vec![0; MAX_SNAPSHOT_STATE_BYTES + 1]).is_err());
}

#[test]
fn a_damaged_manifest_is_not_opened() {
    let bytes = encode_snapshot(b"{\"a\":1}", b"state").unwrap();
    for i in 0..16 + 7 {
        let mut damaged = bytes.clone();
        damaged[i] ^= 1;
        assert!(open_snapshot(&damaged).is_err(), "byte {i}");
    }
    assert!(open_snapshot(&bytes[..15]).is_err());
}

#[test]
fn ids_of_snapshots_are_file_names() {
    let id = snapshot_id(&manifest(5, 1, b"s"));
    assert!(validate_id(&id).is_ok());
    assert_ne!(id, snapshot_id(&manifest(6, 1, b"s")));
    assert_ne!(id, snapshot_id(&manifest(5, 2, b"s")));
    for bad in ["", "../x", "a/b", "a\\b"] {
        assert!(validate_id(bad).is_err(), "{bad}");
    }
}

fn info(cursor: u64, created: i64) -> SnapshotInfo {
    let m = manifest(cursor, created, b"s");
    SnapshotInfo { id: snapshot_id(&m), manifest: m }
}

#[test]
fn snapshots_come_newest_first_and_two_are_kept() {
    let mut foreign = info(9, 9);
    foreign.manifest.descriptor_fingerprint = [8; 16];
    let items = list_snapshots(vec![info(1, 5), foreign, info(3, 1), info(2, 9)], &[2; 16]);
    assert_eq!(items.iter().map(|i| i.manifest.cursor.position).collect::<Vec<_>>(), vec![3, 2, 1]);
    let surplus = surplus_snapshots(&items, None);
    assert_eq!(surplus, vec![items[2].id.clone()]);
}

#[test]
fn a_seal_names_what_is_wrong() {
    let limits = SealLimits { mark: SNAPSHOT_MARK, body: 100, total: 200, exact: false };
    let good = seal(SNAPSHOT_MARK, b"123456789", b"rest");
    assert_eq!(&good[8..12], &9u32.to_le_bytes());
    assert_eq!(&good[12..16], &0xe306_9283u32.to_le_bytes());
    assert_eq!(unseal(limits, &good), Ok(9));
    assert_eq!(unseal(limits, &good[..10]), Err(SealFault::Length));
    assert_eq!(unseal(limits, &seal(1, b"123456789", b"")), Err(SealFault::Mark));
    assert_eq!(unseal(limits, &good[..20]), Err(SealFault::BodyLength));
    let mut damaged = good.clone();
    damaged[16] ^= 1;
    assert_eq!(unseal(limits, &damaged), Err(SealFault::Checksum));
    let exact = SealLimits { exact: true, ..limits };
    assert_eq!(unseal(exact, &good), Err(SealFault::BodyLength));
    assert_eq!(unseal(exact, &good[..25]), Ok(9));
}
