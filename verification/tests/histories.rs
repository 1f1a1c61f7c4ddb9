//! What holds over runs of requests.
use cairn::catalog::dag::Dag;
use cairn::catalog::ids::{NodeId, OperationId};
use cairn::catalog::node::{
    content_digest, CommitNode, ContentNode, Node, NodeKind, RangeMapEntry, RangeMapNode, SnapshotNode,
    ZeroRunNode,
};
use cairn::device::block::BlockDevice;
use cairn::device::dag_store::FileDagStore;
use cairn::device::log::{FileDagStoreError, MAX_SNAPSHOT_READ_BYTES};
use cairn::device::script::{
    DeviceEffect, DeviceEventKind, DeviceRule, DeviceScript, EventOccurrence, EventSelector,
    LatencyProfile,
};
use cairn::device::sim::SimDisk;
use cairn::engine::format::Error as EngineError;
use cairn::engine::store::Store as Engine;

fn operation(number: u64) -> OperationId {
    OperationId(number)
}

fn reopened(store: FileDagStore<SimDisk>) -> FileDagStore<SimDisk> {
    let mut disk = store.into_inner();
    disk.power_loss();
    FileDagStore::open(disk).unwrap()
}

#[test]
fn an_appended_snapshot_reads_back_after_other_requests_and_a_reopening() {
    let mut store = FileDagStore::open(SimDisk::new(16 * 1024)).unwrap();
    store
        .append_node(&Node::ZeroRun(ZeroRunNode { len: 9 }))
        .unwrap();
    let first = store.append_snapshot(b"first bytes", None).unwrap();
    store.bind_operation(operation(1), first.commit_id).unwrap();
    let second = store
        .append_snapshot(b"second", Some(first.commit_id))
        .unwrap();
    store
        .tombstone_operation(operation(1), first.commit_id)
        .unwrap();
    let mut store = reopened(store);
    store
        .append_node(&Node::ZeroRun(ZeroRunNode { len: 10 }))
        .unwrap();
    let mut store = reopened(store);
    for _ in 0..2 {
        assert_eq!(
            store.read_snapshot_range(first.commit_id, 2..7).unwrap(),
            b"rst b"
        );
        assert_eq!(
            store.read_snapshot_range(second.commit_id, 0..6).unwrap(),
            b"second"
        );
        assert_eq!(
            store.read_snapshot_range(second.commit_id, 6..6).unwrap(),
            b""
        );
    }
    assert!(matches!(
        store.read_snapshot_range(first.commit_id, 5..4),
        Err(FileDagStoreError::RangeOutOfBounds { start: 5, end: 4, size: 0 })
    ));
    assert!(matches!(
        store.read_snapshot_range(first.commit_id, 5..12),
        Err(FileDagStoreError::RangeOutOfBounds { start: 5, end: 12, size: 11 })
    ));
    assert!(matches!(
        store.read_snapshot_range([8; 32], 0..1),
        Err(FileDagStoreError::MissingNode(id)) if id == [8; 32]
    ));
    assert_eq!(MAX_SNAPSHOT_READ_BYTES, 64 * 1024 * 1024);
}

#[test]
fn an_ended_operation_stays_ended_through_a_reopening() {
    let mut store = FileDagStore::open(SimDisk::new(16 * 1024)).unwrap();
    let commit = store.append_snapshot(b"a", None).unwrap().commit_id;
    let other = store.append_snapshot(b"b", Some(commit)).unwrap().commit_id;
    store.bind_operation(operation(7), commit).unwrap();
    store.tombstone_operation(operation(7), commit).unwrap();
    store.bind_operation(operation(8), other).unwrap();
    let mut store = reopened(store);
    assert_eq!(store.operation_binding(operation(7)), None);
    assert_eq!(store.operation_tombstone(operation(7)), Some(commit));
    assert_eq!(store.operation_binding(operation(8)), Some(other));
    let end = store.next_offset();
    store.tombstone_operation(operation(7), commit).unwrap();
    assert!(matches!(
        store.bind_operation(operation(7), commit),
        Err(FileDagStoreError::OperationConflict(7))
    ));
    assert!(matches!(
        store.tombstone_operation(operation(7), other),
        Err(FileDagStoreError::OperationConflict(7))
    ));
    assert_eq!(store.next_offset(), end);
}

#[test]
fn a_snapshot_with_a_wrong_digest_is_refused_each_time() {
    let mut store = FileDagStore::open(SimDisk::new(16 * 1024)).unwrap();
    let child = store
        .append_node(&Node::Content(ContentNode {
            bytes: b"actual".to_vec(),
        }))
        .unwrap();
    let map = store
        .append_node(&Node::RangeMap(RangeMapNode {
            level: 0,
            children: vec![RangeMapEntry {
                logical_start: 0,
                logical_len: 6,
                content_offset: 0,
                child_kind: NodeKind::Content,
                child,
            }],
        }))
        .unwrap();
    let snapshot = store
        .append_node(&Node::Snapshot(SnapshotNode {
            logical_size: 6,
            range_map_root: map,
            content_digest: content_digest(b"claimed"),
        }))
        .unwrap();
    let commit = store
        .append_node(&Node::Commit(CommitNode {
            snapshot,
            parent: None,
        }))
        .unwrap();
    for _ in 0..2 {
        assert!(store.read_snapshot_range(commit, 0..1).is_err());
        assert!(store.verified_snapshot(commit).is_err());
    }
    let right = store.append_snapshot(b"actual", None).unwrap();
    assert_eq!(
        store.read_snapshot_range(right.commit_id, 0..1).unwrap(),
        b"a"
    );
    assert!(store.read_snapshot_range(commit, 0..1).is_err());
}

fn children_of(dag: &Dag, root: &NodeId) -> Vec<RangeMapEntry> {
    match dag.get(root) {
        Some(Node::RangeMap(map)) => map.children.clone(),
        _ => panic!("no map"),
    }
}

#[test]
fn a_patch_keeps_the_leaves_around_it_by_identifier() {
    let mut dag = Dag::new();
    let base: [u8; 6] = *b"abcdef";
    let root = dag
        .patch_snapshot(None, 0, 6, &[(0..6, base.as_slice())])
        .unwrap();
    let before = children_of(&dag, &root);
    assert_eq!(before.len(), 1);
    let snapshot = dag
        .insert(Node::Snapshot(SnapshotNode {
            logical_size: 6,
            range_map_root: root,
            content_digest: content_digest(b"abcdef"),
        }))
        .unwrap();
    let patch: [u8; 2] = *b"XY";
    let patched = dag
        .patch_snapshot(Some(snapshot), 6, 6, &[(2..4, patch.as_slice())])
        .unwrap();
    assert_eq!(
        dag.digest_range_map(patched, 6),
        Ok(content_digest(b"abXYef"))
    );
    let after = children_of(&dag, &patched);
    assert_eq!(after.len(), 3);
    let kept: Vec<(u64, u64, u64, bool)> = after
        .iter()
        .map(|entry| {
            (
                entry.logical_start,
                entry.logical_len,
                entry.content_offset,
                entry.child == before[0].child,
            )
        })
        .collect();
    assert_eq!(
        kept,
        vec![(0, 2, 0, true), (2, 2, 0, false), (4, 2, 4, true)]
    );
    assert_eq!(
        dag.get(&after[1].child),
        Some(&Node::Content(ContentNode {
            bytes: b"XY".to_vec()
        }))
    );
}

#[test]
fn an_object_that_is_put_again_appends_nothing() {
    let data: Vec<u8> = (0..700).map(|i| (i % 13) as u8).collect();
    let mut store = Engine::format(SimDisk::new(64 * 1024)).unwrap();
    let first = store.put_object_with_chunk_size(&data, 64).unwrap();
    let end = store.append_offset;
    assert_eq!(store.put_object_with_chunk_size(&data, 64).unwrap(), first);
    assert_eq!(store.append_offset, end);
    assert_eq!(store.read_object(&first).unwrap(), data);
    let large = vec![7; 64 * 1024];
    assert!(matches!(
        store.put_object(&large),
        Err(EngineError::Capacity)
    ));
    assert_eq!(store.append_offset, end);
    assert_eq!(store.read_object(&first).unwrap(), data);
    let other = store.put_object_with_chunk_size(&data, 100).unwrap();
    assert_ne!(other, first);
    assert_eq!(store.read_object(&other).unwrap(), data);
}

#[test]
fn a_flush_of_everything_makes_what_is_read_durable() {
    let script = DeviceScript {
        flush_data_writes: Some(1),
        rules: vec![DeviceRule {
            selector: EventSelector {
                kind: DeviceEventKind::Write,
                occurrence: EventOccurrence::Exact(1),
                range: None,
            },
            effect: DeviceEffect::Drop,
        }],
        ..DeviceScript::default()
    };
    let mut disk = SimDisk::from_script(16, script).unwrap();
    disk.write_at(0, b"ab").unwrap();
    disk.write_at(4, b"cd").unwrap();
    disk.write_at(1, b"ef").unwrap();
    disk.flush_data().unwrap();
    disk.write_at(8, b"gh").unwrap();
    let mut seen = [0xff; 16];
    disk.read_at(0, &mut seen).unwrap();
    disk.flush_all().unwrap();
    assert_eq!(disk.durable_bytes(), &seen[..]);
    disk.power_loss();
    let mut again = [0xee; 16];
    disk.read_at(0, &mut again).unwrap();
    assert_eq!(again, seen);
    assert_eq!(&seen[..3], b"aef");
    assert_eq!(&seen[8..10], b"gh");
}

#[test]
fn the_trace_numbers_every_request_in_order() {
    let script = DeviceScript {
        latency: LatencyProfile {
            read_ticks: 1,
            write_ticks: 2,
            flush_data_ticks: 3,
            ..LatencyProfile::default()
        },
        ..DeviceScript::default()
    };
    let mut disk = SimDisk::from_script(16, script).unwrap();
    let mut seen = [0; 2];
    disk.write_at(0, b"ab").unwrap();
    disk.read_at(0, &mut seen).unwrap();
    assert!(disk.read_at(15, &mut seen).is_err());
    disk.flush_data().unwrap();
    disk.flush_all().unwrap();
    disk.power_loss();
    let trace = disk.trace();
    let kinds: Vec<DeviceEventKind> = trace.iter().map(|event| event.kind).collect();
    assert_eq!(
        kinds,
        vec![
            DeviceEventKind::Write,
            DeviceEventKind::Read,
            DeviceEventKind::Read,
            DeviceEventKind::FlushData,
            DeviceEventKind::FlushAll,
            DeviceEventKind::Crash,
        ]
    );
    for (at, event) in trace.iter().enumerate() {
        assert_eq!(event.sequence, at as u64);
        assert!(at == 0 || trace[at - 1].virtual_time <= event.virtual_time);
    }
}
