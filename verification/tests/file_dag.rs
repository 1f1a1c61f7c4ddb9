//! The durable commit graph.
use cairn::catalog::ids::{CommitId, OperationId};
use cairn::catalog::model::ModelCatalog;
use cairn::catalog::node::{
    content_digest, encode_node_payload, CommitNode, ContentNode, DagError, Node, NodeKind,
    RangeMapEntry, RangeMapNode, SnapshotNode, ZeroRunNode,
};
use cairn::device::block::BlockDevice;
use cairn::device::dag_store::{encode_header, FileDagStore};
use cairn::device::log::{
    FileDagStoreError, RecordKind, RECORD_FOOTER_LEN, RECORD_HEADER_LEN,
};
use cairn::device::script::{
    DeviceEffect, DeviceEventKind, DeviceRule, DeviceScript, EventOccurrence, EventSelector,
};
use cairn::device::sim::SimDisk;
use cairn::device::snapshots::VerifiedSnapshot;

/// The bytes of a record with eight bytes of payload.
const RECORD_LEN: u64 = (RECORD_HEADER_LEN + 8 + RECORD_FOOTER_LEN) as u64;

fn operation_id() -> OperationId {
    ModelCatalog::new().allocate_operation_id().unwrap()
}

#[test]
fn nodes_and_bindings_survive_scan_reopen() {
    let disk = SimDisk::new(4096);
    let mut store = FileDagStore::open(disk).unwrap();
    let node = Node::ZeroRun(ZeroRunNode { len: 123 });
    let node_id = store.append_node(&node).unwrap();
    let operation = operation_id();
    let map = store
        .append_node(&Node::RangeMap(RangeMapNode {
            level: 0,
            children: Vec::new(),
        }))
        .unwrap();
    let snapshot = store
        .append_node(&Node::Snapshot(SnapshotNode {
            logical_size: 0,
            range_map_root: map,
            content_digest: content_digest(&[]),
        }))
        .unwrap();
    let commit = Node::Commit(CommitNode {
        snapshot,
        parent: None,
    });
    let commit = store.append_node(&commit).unwrap();
    store.bind_operation(operation, commit).unwrap();

    let disk = store.into_inner();
    let mut reopened = FileDagStore::open(disk).unwrap();
    assert_eq!(reopened.node(&node_id).unwrap(), Some(node));
    assert_eq!(reopened.operation_binding(operation), Some(commit));
}

#[test]
fn operation_tombstone_is_sticky_and_survives_scan_reopen() {
    let disk = SimDisk::new(4096);
    let mut store = FileDagStore::open(disk).unwrap();
    let map = store
        .append_node(&Node::RangeMap(RangeMapNode {
            level: 0,
            children: Vec::new(),
        }))
        .unwrap();
    let snapshot = store
        .append_node(&Node::Snapshot(SnapshotNode {
            logical_size: 0,
            range_map_root: map,
            content_digest: content_digest(&[]),
        }))
        .unwrap();
    let commit = store
        .append_node(&Node::Commit(CommitNode {
            snapshot,
            parent: None,
        }))
        .unwrap();
    let operation = operation_id();
    store.bind_operation(operation, commit).unwrap();
    assert_eq!(store.operation_binding(operation), Some(commit));
    let after_bind = store.next_offset();
    store.bind_operation(operation, commit).unwrap();
    assert_eq!(store.next_offset(), after_bind);

    let other_commit = store
        .append_node(&Node::Commit(CommitNode {
            snapshot,
            parent: Some(commit),
        }))
        .unwrap();
    assert!(matches!(
        store.tombstone_operation(operation, other_commit),
        Err(FileDagStoreError::OperationConflict(id)) if id == operation.get()
    ));

    store.tombstone_operation(operation, commit).unwrap();
    let after_tombstone = store.next_offset();
    assert_eq!(store.operation_binding(operation), None);
    assert_eq!(store.operation_tombstone(operation), Some(commit));
    store.tombstone_operation(operation, commit).unwrap();
    assert_eq!(store.next_offset(), after_tombstone);
    assert!(matches!(
        store.bind_operation(operation, commit),
        Err(FileDagStoreError::OperationConflict(id)) if id == operation.get()
    ));

    let disk = store.into_inner();
    let reopened = FileDagStore::open(disk).unwrap();
    assert_eq!(reopened.operation_binding(operation), None);
    assert_eq!(reopened.operation_tombstone(operation), Some(commit));
}

#[test]
fn checksum_corruption_is_rejected() {
    let disk = SimDisk::new(4096);
    let mut store = FileDagStore::open(disk).unwrap();
    store
        .append_node(&Node::ZeroRun(ZeroRunNode { len: 1 }))
        .unwrap();
    let offset = store.next_offset() - RECORD_LEN;
    let mut disk = store.into_inner();
    let mut byte = [0; 1];
    disk.read_at(offset + 6, &mut byte).unwrap();
    byte[0] ^= 1;
    disk.write_at(offset + 6, &byte).unwrap();
    disk.flush_all().unwrap();

    assert!(matches!(
        FileDagStore::open(disk),
        Err(FileDagStoreError::CorruptRecord {
            reason: "checksum mismatch",
            ..
        })
    ));
}

#[test]
fn zeroed_header_checksum_with_a_complete_footer_is_rejected() {
    let disk = SimDisk::new(4096);
    let mut store = FileDagStore::open(disk).unwrap();
    store
        .append_node(&Node::ZeroRun(ZeroRunNode { len: 1 }))
        .unwrap();
    let offset = store.next_offset() - RECORD_LEN;
    let mut disk = store.into_inner();
    disk.write_at(offset + 6, &[0; 32]).unwrap();
    disk.flush_all().unwrap();

    assert!(matches!(
        FileDagStore::open(disk),
        Err(FileDagStoreError::CorruptRecord {
            reason: "checksum mismatch",
            ..
        })
    ));
}

#[test]
fn binding_requires_an_existing_commit_node() {
    let disk = SimDisk::new(4096);
    let mut store = FileDagStore::open(disk).unwrap();
    let operation = operation_id();
    assert!(matches!(
        store.bind_operation(operation, [7; 32]),
        Err(FileDagStoreError::Dag(DagError::MissingNode(_)))
    ));
}

#[test]
fn binding_requires_a_commit_node() {
    let disk = SimDisk::new(4096);
    let mut store = FileDagStore::open(disk).unwrap();
    let node_id = store
        .append_node(&Node::ZeroRun(ZeroRunNode { len: 1 }))
        .unwrap();
    assert!(matches!(
        store.bind_operation(operation_id(), node_id),
        Err(FileDagStoreError::Dag(DagError::InvalidReference(_)))
    ));
}

#[test]
fn crash_cut_after_flushed_header_is_truncated_payload_tail() {
    let script = DeviceScript {
        rules: vec![DeviceRule {
            selector: EventSelector {
                kind: DeviceEventKind::Write,
                occurrence: EventOccurrence::Exact(2),
                range: None,
            },
            effect: DeviceEffect::TearAndCrashAfter { durable_prefix: 3 },
        }],
        ..DeviceScript::default()
    };
    let mut disk = SimDisk::from_script(4096, script).unwrap();
    let node = Node::Commit(CommitNode {
        snapshot: [8; 32],
        parent: None,
    });
    let payload = encode_node_payload(&node).unwrap();
    let header = encode_header(RecordKind::Node(node.kind()), &payload);
    disk.write_at(0, &header).unwrap();
    disk.flush_data().unwrap();
    assert!(disk.write_at(RECORD_HEADER_LEN as u64, &payload).is_err());
    assert_ne!(
        &disk.durable_bytes()[RECORD_HEADER_LEN..RECORD_HEADER_LEN + payload.len()],
        payload.as_slice()
    );

    assert_eq!(FileDagStore::open(disk).unwrap().next_offset(), 0);
}

#[test]
fn crash_cut_in_header_is_treated_as_truncated_tail() {
    let script = DeviceScript {
        rules: vec![DeviceRule {
            selector: EventSelector {
                kind: DeviceEventKind::Write,
                occurrence: EventOccurrence::Exact(1),
                range: None,
            },
            effect: DeviceEffect::TearAndCrashAfter { durable_prefix: 5 },
        }],
        ..DeviceScript::default()
    };
    let disk = SimDisk::from_script(4096, script).unwrap();
    let mut store = FileDagStore::open(disk).unwrap();
    let error = store
        .append_node(&Node::ZeroRun(ZeroRunNode { len: 9 }))
        .unwrap_err();
    assert!(matches!(error, FileDagStoreError::Device(_)));
    let disk = store.into_inner();
    let reopened = FileDagStore::open(disk).unwrap();
    assert_eq!(reopened.next_offset(), 0);
}

fn persisted_fixture() -> (SimDisk, CommitId, Vec<u8>) {
    let disk = SimDisk::new(32 * 1024);
    let mut store = FileDagStore::open(disk).unwrap();
    let first = b"abcdefgh".to_vec();
    let last = b"WXYZ".to_vec();
    let first_id = store
        .append_node(&Node::Content(ContentNode {
            bytes: first.clone(),
        }))
        .unwrap();
    let zero_id = store
        .append_node(&Node::ZeroRun(ZeroRunNode { len: 3 }))
        .unwrap();
    let last_id = store
        .append_node(&Node::Content(ContentNode {
            bytes: last.clone(),
        }))
        .unwrap();
    let map_id = store
        .append_node(&Node::RangeMap(RangeMapNode {
            level: 0,
            children: vec![
                RangeMapEntry {
                    logical_start: 0,
                    logical_len: 8,
                    content_offset: 0,
                    child_kind: NodeKind::Content,
                    child: first_id,
                },
                RangeMapEntry {
                    logical_start: 8,
                    logical_len: 3,
                    content_offset: 0,
                    child_kind: NodeKind::ZeroRun,
                    child: zero_id,
                },
                RangeMapEntry {
                    logical_start: 11,
                    logical_len: 4,
                    content_offset: 0,
                    child_kind: NodeKind::Content,
                    child: last_id,
                },
            ],
        }))
        .unwrap();
    let expected = [first, vec![0; 3], last].concat();
    let snapshot_id = store
        .append_node(&Node::Snapshot(SnapshotNode {
            logical_size: expected.len() as u64,
            range_map_root: map_id,
            content_digest: content_digest(&expected),
        }))
        .unwrap();
    let commit_id = store
        .append_node(&Node::Commit(CommitNode {
            snapshot: snapshot_id,
            parent: None,
        }))
        .unwrap();
    (store.into_inner(), commit_id, expected)
}

#[test]
fn append_snapshot_builds_a_reopenable_commit() {
    let disk = SimDisk::new(32 * 1024);
    let mut store = FileDagStore::open(disk).unwrap();
    let bytes = b"durable write".to_vec();
    let verified = store.append_snapshot(&bytes, None).unwrap();
    assert_eq!(
        store
            .read_snapshot_range(verified.commit_id, 0..bytes.len() as u64)
            .unwrap(),
        bytes
    );
    let disk = store.into_inner();
    let mut reopened = FileDagStore::open(disk).unwrap();
    assert_eq!(
        reopened.verified_snapshot(verified.commit_id).unwrap(),
        verified
    );
}

#[test]
fn snapshot_range_reads_only_requested_logical_bytes_and_survives_reopen() {
    let (disk, commit, expected) = persisted_fixture();
    let mut store = FileDagStore::open(disk).unwrap();
    for start in 0..=expected.len() as u64 {
        for end in start..=expected.len() as u64 {
            assert_eq!(
                store.read_snapshot_range(commit, start..end).unwrap(),
                expected[start as usize..end as usize]
            );
        }
    }
    let disk = store.into_inner();
    let mut reopened = FileDagStore::open(disk).unwrap();
    assert_eq!(
        reopened.read_snapshot_range(commit, 6..13).unwrap(),
        b"gh\0\0\0WX"
    );
    assert_eq!(
        reopened.verified_snapshot(commit).unwrap(),
        VerifiedSnapshot {
            commit_id: commit,
            logical_size: expected.len() as u64,
            content_digest: content_digest(&expected),
        }
    );
}

#[test]
fn snapshot_range_errors_are_classified() {
    let (disk, commit, expected) = persisted_fixture();
    let mut store = FileDagStore::open(disk).unwrap();
    assert!(matches!(
        store.read_snapshot_range(commit, 0..expected.len() as u64 + 1),
        Err(FileDagStoreError::RangeOutOfBounds { .. })
    ));
    let reversed_start = 2;
    let reversed_end = 1;
    assert!(matches!(
        store.read_snapshot_range(commit, reversed_start..reversed_end),
        Err(FileDagStoreError::RangeOutOfBounds { .. })
    ));
    assert!(matches!(
        store.read_snapshot_range([9; 32], 0..1),
        Err(FileDagStoreError::MissingNode(_))
    ));
}

#[test]
fn snapshot_range_rejects_commit_to_non_snapshot_reference() {
    let disk = SimDisk::new(4096);
    let mut store = FileDagStore::open(disk).unwrap();
    let zero = store
        .append_node(&Node::ZeroRun(ZeroRunNode { len: 1 }))
        .unwrap();
    let commit = store
        .append_node(&Node::Commit(CommitNode {
            snapshot: zero,
            parent: None,
        }))
        .unwrap();
    assert!(matches!(
        store.read_snapshot_range(commit, 0..1),
        Err(FileDagStoreError::InvalidReference(_))
    ));
}

#[test]
fn snapshot_range_rejects_a_validly_hashed_snapshot_with_wrong_content_digest() {
    let (disk, commit, _) = persisted_fixture();
    let mut store = FileDagStore::open(disk).unwrap();
    let snapshot_id = match store.node(&commit).unwrap().unwrap() {
        Node::Commit(commit) => commit.snapshot,
        _ => unreachable!(),
    };
    let original = match store.node(&snapshot_id).unwrap() {
        Some(Node::Snapshot(snapshot)) => snapshot,
        _ => unreachable!(),
    };
    let snapshot = store
        .append_node(&Node::Snapshot(SnapshotNode {
            content_digest: [9; 32],
            ..original
        }))
        .unwrap();
    let bad_commit = store
        .append_node(&Node::Commit(CommitNode {
            snapshot,
            parent: None,
        }))
        .unwrap();
    assert!(matches!(
        store.read_snapshot_range(bad_commit, 0..1),
        Err(FileDagStoreError::InvalidSnapshot(
            "content digest mismatch"
        ))
    ));
}
