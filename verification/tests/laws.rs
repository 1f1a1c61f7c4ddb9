//! What holds over several calls.
use cairn::catalog::dag::Dag;
use cairn::catalog::ids::{CommitId, FileId, OperationId, PrincipalId, VersionId};
use cairn::catalog::model::ModelCatalog;
use cairn::catalog::node::{
    content_digest, CommitNode, ContentNode, DagError, Node, NodeKind, RangeMapEntry,
    RangeMapNode, SnapshotNode, ZeroRunNode, MAX_LOGICAL_FILE_SIZE,
};
use cairn::catalog::reference_store::{NativeError, Store as FileStore};
use cairn::catalog::types::{
    Capability, CatalogError, FenceToken, Head, IntentState, PrincipalKind, PrincipalState,
};
use cairn::device::block::{BlockDevice, DeviceError, FaultKind};
use cairn::device::dag_store::FileDagStore;
use cairn::device::log::FileDagStoreError;
use cairn::device::script::{
    ByteRange, DeviceEffect, DeviceEventKind, DeviceRule, DeviceScript, EventOccurrence,
    EventSelector, ReorderPolicy,
};
use cairn::device::sim::SimDisk;
use cairn::engine::format::{ChunkRef, Error as EngineError};
use cairn::engine::store::Store as Engine;
use cairn::model::objects::{Error as ModelError, Model};
use cairn::record_log::format::Error as LogError;
use cairn::record_log::store::Store as RecordLog;

fn on_write(occurrence: u64, effect: DeviceEffect) -> DeviceScript {
    DeviceScript {
        rules: vec![DeviceRule {
            selector: EventSelector {
                kind: DeviceEventKind::Write,
                occurrence: EventOccurrence::Exact(occurrence),
                range: None,
            },
            effect,
        }],
        ..DeviceScript::default()
    }
}

#[test]
fn a_write_is_readable_at_once_and_durable_after_a_flush() {
    let mut disk = SimDisk::new(16);
    disk.write_at(3, b"abc").unwrap();
    let mut seen = [0; 3];
    disk.read_at(3, &mut seen).unwrap();
    assert_eq!(&seen, b"abc");
    assert_eq!(&disk.durable_bytes()[3..6], &[0; 3]);
    disk.flush_all().unwrap();
    disk.read_at(3, &mut seen).unwrap();
    assert_eq!(&seen, b"abc");
    disk.write_at(3, b"xyz").unwrap();
    disk.power_loss();
    disk.read_at(3, &mut seen).unwrap();
    assert_eq!(&seen, b"abc");
    assert_eq!(disk.pending_writes(), 0);
}

#[test]
fn only_a_torn_crash_writes_through_and_in_whole_units() {
    let mut disk = SimDisk::from_script(
        16,
        DeviceScript {
            atomic_unit: 4,
            ..on_write(0, DeviceEffect::TearAndCrashAfter { durable_prefix: 6 })
        },
    )
    .unwrap();
    assert!(disk.write_at(0, b"abcdefgh").is_err());
    assert_eq!(&disk.durable_bytes()[..8], b"abcd\0\0\0\0");
    let mut disk = SimDisk::from_script(16, on_write(0, DeviceEffect::CrashAfter)).unwrap();
    assert!(disk.write_at(0, b"abcdefgh").is_err());
    assert_eq!(&disk.durable_bytes()[..8], &[0; 8]);
}

#[test]
fn a_flush_in_order_of_offsets_starts_with_the_lowest() {
    let script = DeviceScript {
        reorder: Some(ReorderPolicy::ByOffset),
        flush_data_writes: Some(1),
        ..DeviceScript::default()
    };
    let mut disk = SimDisk::from_script(16, script).unwrap();
    disk.write_at(8, b"hi").unwrap();
    disk.write_at(2, b"lo").unwrap();
    disk.flush_data().unwrap();
    assert_eq!(&disk.durable_bytes()[2..4], b"lo");
    assert_eq!(&disk.durable_bytes()[8..10], &[0; 2]);
    assert_eq!(disk.pending_writes(), 1);
}

#[test]
fn scripts_are_refused_for_each_reason() {
    let refused = |script: DeviceScript| match SimDisk::from_script(16, script) {
        Err(DeviceError::InvalidConfig(_)) => true,
        _ => false,
    };
    assert!(refused(DeviceScript {
        atomic_unit: 0,
        ..DeviceScript::default()
    }));
    assert!(refused(DeviceScript {
        bad_ranges: vec![ByteRange { offset: 15, len: 2 }],
        ..DeviceScript::default()
    }));
    let mut twice = on_write(1, DeviceEffect::Fail);
    twice.rules.push(twice.rules[0]);
    assert!(refused(twice));
    let mut disk = SimDisk::new(4);
    assert!(matches!(
        disk.write_at(3, b"ab"),
        Err(DeviceError::OutOfBounds {
            offset: 3,
            len: 2,
            capacity: 4
        })
    ));
    let mut disk = SimDisk::from_script(4, on_write(0, DeviceEffect::Timeout)).unwrap();
    assert!(matches!(
        disk.write_at(0, b"a"),
        Err(DeviceError::Injected {
            kind: FaultKind::Timeout,
            ..
        })
    ));
}

#[test]
fn a_damaged_latest_slot_falls_back_to_the_root_before() {
    let mut store = Engine::format(SimDisk::new(64 * 1024)).unwrap();
    let first = store.put_object(b"committed bytes").unwrap();
    let root_9 = store.commit_root(first, 9).unwrap();
    let second = store.put_object(b"next committed bytes").unwrap();
    let root_42 = store.commit_root(second, 42).unwrap();
    let mut disk = store.into_device();
    disk.power_loss();
    let reopened = Engine::open(disk).unwrap();
    assert_eq!(reopened.current_root(), Some(root_42));
    let mut disk = reopened.into_device();
    disk.write_at(0, &[0xa5]).unwrap();
    disk.flush_all().unwrap();
    let mut fallback = Engine::open(disk).unwrap();
    assert_eq!(fallback.current_root(), Some(root_9));
    assert_eq!(
        fallback.read_root().unwrap(),
        Some(b"committed bytes".to_vec())
    );
    assert!(matches!(
        fallback.read_object(&second),
        Err(EngineError::NotFound(id)) if id == second
    ));
}

#[test]
fn a_commit_that_fails_on_the_way_keeps_the_root() {
    for cut in 3..16 {
        let mut store =
            Engine::format(SimDisk::from_script(64 * 1024, on_write(cut, DeviceEffect::CrashBefore)).unwrap())
                .unwrap();
        let Ok(first) = store.put_object(b"first") else {
            continue;
        };
        if store.commit_root(first, 1).is_err() {
            continue;
        }
        let committed = store.put_object(b"second").and_then(|id| store.commit_root(id, 2));
        let mut disk = store.into_device();
        disk.power_loss();
        let reopened = Engine::open(disk).unwrap();
        let generation = reopened.current_root().unwrap().generation;
        assert_eq!(generation, if committed.is_ok() { 2 } else { 1 });
    }
}

#[test]
fn the_engine_reports_each_problem() {
    assert!(matches!(
        Engine::open(SimDisk::new(64 * 1024)),
        Err(EngineError::Unformatted)
    ));
    assert!(Engine::format(SimDisk::new(16)).is_err());
    let mut store = Engine::format(SimDisk::new(64 * 1024)).unwrap();
    assert!(matches!(
        store.get_bytes(&[7; 32]),
        Err(EngineError::NotFound(id)) if id == [7; 32]
    ));
    let manifest = store.put_object(b"data").unwrap();
    assert!(matches!(
        store.get_bytes(&manifest),
        Err(EngineError::Corruption("invalid chunk entry"))
    ));
    store.commit_root(manifest, 3).unwrap();
    assert!(matches!(
        store.commit_root(manifest, 3),
        Err(EngineError::InvalidInput(_))
    ));
    assert_eq!(store.validate_manifest(&manifest), Ok(()));
    let mut disk = store.into_device();
    disk.write_at(0, &[0; 4096]).unwrap();
    disk.write_at(4096, &[0xff; 4096]).unwrap();
    assert!(Engine::open(disk).is_err());
}

#[test]
fn the_record_log_keeps_what_was_committed() {
    let mut log = RecordLog::format(SimDisk::new(64 * 1024)).unwrap();
    let first = log.put_bytes(b"first").unwrap();
    let again = log.put_bytes(b"first").unwrap();
    assert_eq!(first, again);
    let second = log.put_bytes(b"second").unwrap();
    assert_eq!(log.get_bytes(&first).unwrap(), b"first");
    assert!(matches!(
        log.get_bytes(&[9; 32]),
        Err(LogError::NotFound(id)) if id == [9; 32]
    ));
    let root = log.commit_root(second, 4).unwrap();
    assert_eq!(log.current_root(), Some(root));
    assert!(log.commit_root([9; 32], 5).is_err());
    let mut disk = log.device;
    disk.power_loss();
    let mut log = RecordLog::open(disk).unwrap();
    assert_eq!(log.current_root(), Some(root));
    assert_eq!(log.get_bytes(&first).unwrap(), b"first");
    assert_eq!(log.get_bytes(&second).unwrap(), b"second");
}

#[test]
fn a_crash_of_the_object_model_keeps_what_is_committed() {
    let mut model = Model::default();
    let chunk = model.put_bytes(b"chunk".to_vec()).unwrap();
    assert_eq!(model.put_bytes(b"chunk".to_vec()).unwrap(), chunk);
    let manifest = model
        .put_manifest(&[ChunkRef { id: chunk, len: 5 }])
        .unwrap();
    let root = model.commit_root(manifest, 1).unwrap();
    let later = model.put_bytes(b"later".to_vec()).unwrap();
    let reopened = model.reopen();
    assert_eq!(reopened.current_root(), Some(root));
    assert_eq!(reopened.get(&chunk).map(|bytes| bytes.to_vec()), Some(b"chunk".to_vec()));
    assert_eq!(reopened.get(&later), None);
    let mut model = Model::default();
    assert_eq!(
        model.commit_root([3; 32], 1),
        Err(ModelError::NotFound([3; 32]))
    );
}

fn empty_commit(dag: &mut Dag, parent: Option<CommitId>) -> CommitId {
    let map = dag
        .insert(Node::RangeMap(RangeMapNode {
            level: 0,
            children: vec![],
        }))
        .unwrap();
    let snapshot = dag
        .insert(Node::Snapshot(SnapshotNode {
            logical_size: 0,
            range_map_root: map,
            content_digest: content_digest(&[]),
        }))
        .unwrap();
    dag.insert(Node::Commit(CommitNode { snapshot, parent }))
        .unwrap()
}

#[test]
fn the_graph_refuses_what_does_not_fit() {
    let mut dag = Dag::new();
    assert!(matches!(
        dag.insert(Node::Commit(CommitNode {
            snapshot: [9; 32],
            parent: None
        })),
        Err(DagError::MissingNode(id)) if id == [9; 32]
    ));
    let zero = dag.insert(Node::ZeroRun(ZeroRunNode { len: 4 })).unwrap();
    assert!(matches!(
        dag.insert(Node::Commit(CommitNode {
            snapshot: zero,
            parent: None
        })),
        Err(DagError::ReferenceKind { .. })
    ));
    let map = dag
        .insert(Node::RangeMap(RangeMapNode {
            level: 0,
            children: vec![RangeMapEntry {
                logical_start: 0,
                logical_len: 4,
                content_offset: 0,
                child_kind: NodeKind::ZeroRun,
                child: zero,
            }],
        }))
        .unwrap();
    let wrong = dag.insert(Node::Snapshot(SnapshotNode {
        logical_size: 4,
        range_map_root: map,
        content_digest: content_digest(b"abcd"),
    }));
    assert!(wrong.is_err());
    let right = SnapshotNode {
        logical_size: 4,
        range_map_root: map,
        content_digest: content_digest(&[0; 4]),
    };
    dag.insert(Node::Snapshot(right)).unwrap();
    assert_eq!(dag.reconstruct(&right).unwrap(), vec![0; 4]);
    let content = dag
        .insert(Node::Content(ContentNode {
            bytes: b"abcd".to_vec(),
        }))
        .unwrap();
    assert_eq!(
        dag.insert(Node::Content(ContentNode {
            bytes: b"abcd".to_vec(),
        }))
        .unwrap(),
        content
    );
}

struct Setup {
    catalog: ModelCatalog,
    dag: Dag,
    org: PrincipalId,
    writer: PrincipalId,
    head: Head,
}

fn begin(setup: &mut Setup, file: FileId) -> (OperationId, FenceToken) {
    let op = setup.catalog.allocate_operation_id().unwrap();
    setup
        .catalog
        .begin_publish(setup.writer, file, op, setup.head, None)
        .unwrap();
    (op, setup.catalog.claim_token(setup.writer, op).unwrap())
}

fn prepared() -> (Setup, FileId) {
    let mut catalog = ModelCatalog::new();
    let org = catalog
        .create_principal(PrincipalKind::Organization)
        .unwrap();
    let writer = catalog.create_principal(PrincipalKind::User).unwrap();
    catalog
        .grant_membership(org, org, writer, Capability::ManageMembers)
        .unwrap();
    let op = catalog.allocate_operation_id().unwrap();
    let collection = catalog.create_collection(org, org, "docs", op).unwrap();
    assert_eq!(catalog.create_collection(org, org, "docs", op), Ok(collection));
    let op = catalog.allocate_operation_id().unwrap();
    let file = catalog.create_file(writer, collection, "a", op).unwrap();
    assert_eq!(catalog.create_file(writer, collection, "a", op), Ok(file));
    let head = catalog.head(writer, file).unwrap();
    let setup = Setup {
        catalog,
        dag: Dag::new(),
        org,
        writer,
        head,
    };
    (setup, file)
}

fn ready(setup: &mut Setup, op: OperationId, fence: FenceToken) {
    let commit = empty_commit(&mut setup.dag, None);
    let receipt = setup.dag.commit_operation(op, commit).unwrap();
    setup
        .catalog
        .register_receipt(setup.writer, op, fence, &setup.dag, receipt)
        .unwrap();
    setup
        .catalog
        .bind_candidate(setup.writer, op, fence)
        .unwrap();
}

#[test]
fn one_publication_per_head_and_it_moves_the_head_by_one() {
    let (mut setup, file) = prepared();
    let (first, first_fence) = begin(&mut setup, file);
    let (second, second_fence) = begin(&mut setup, file);
    ready(&mut setup, first, first_fence);
    ready(&mut setup, second, second_fence);
    let version = setup
        .catalog
        .publish(setup.writer, first, Some(first_fence))
        .unwrap();
    assert_eq!(version.generation, 1);
    assert_eq!(
        setup.catalog.head(setup.writer, file).unwrap(),
        Head {
            version_id: Some(version.id),
            generation: 1
        }
    );
    assert_eq!(
        setup.catalog.publish(setup.writer, second, Some(second_fence)),
        Err(CatalogError::HeadConflict)
    );
    assert_eq!(
        setup.catalog.publish(setup.writer, second, None),
        Err(CatalogError::HeadConflict)
    );
    assert_eq!(
        setup.catalog.publish(setup.writer, first, None),
        Ok(version)
    );
    assert_eq!(
        setup.catalog.list_versions(setup.writer, file).unwrap(),
        vec![version]
    );
}

#[test]
fn two_claims_differ_and_no_operation_is_handed_out_twice() {
    let (mut setup, file) = prepared();
    let (first, first_fence) = begin(&mut setup, file);
    let (second, second_fence) = begin(&mut setup, file);
    assert_ne!(first, second);
    assert_ne!(first_fence, second_fence);
    assert_eq!(
        setup
            .catalog
            .bind_candidate(setup.writer, second, first_fence)
            .map(|_| ()),
        Err(CatalogError::FenceLost)
    );
    let mut seen = vec![first, second];
    for _ in 0..5 {
        let op = setup.catalog.allocate_operation_id().unwrap();
        assert!(!seen.contains(&op));
        seen.push(op);
    }
}

#[test]
fn a_change_of_membership_or_state_stops_a_publication() {
    let (mut setup, file) = prepared();
    let (op, fence) = begin(&mut setup, file);
    ready(&mut setup, op, fence);
    setup
        .catalog
        .grant_membership(setup.org, setup.org, setup.writer, Capability::Write)
        .unwrap();
    assert_eq!(
        setup.catalog.publish(setup.writer, op, Some(fence)),
        Err(CatalogError::AuthzEpochChanged)
    );

    let (mut setup, file) = prepared();
    let (op, fence) = begin(&mut setup, file);
    ready(&mut setup, op, fence);
    let authority = ModelCatalog::system_authority();
    setup.catalog.disable(&authority, setup.writer).unwrap();
    assert_eq!(
        setup.catalog.publish(setup.writer, op, Some(fence)),
        Err(CatalogError::PrincipalDisabled)
    );
    setup.catalog.enable(&authority, setup.writer).unwrap();
    assert_eq!(
        setup.catalog.principal(setup.writer).unwrap().state,
        PrincipalState::Active
    );
}

#[test]
fn a_reopened_catalog_knows_everything_but_its_claims() {
    let (mut setup, file) = prepared();
    let (op, fence) = begin(&mut setup, file);
    let mut reopened = setup.catalog.crash_reopen().unwrap();
    assert_eq!(reopened.head(setup.writer, file).unwrap(), setup.head);
    assert_eq!(
        reopened.abort(op, setup.writer, Some(fence)),
        Err(CatalogError::FenceLost)
    );
    assert_eq!(
        reopened.intent(setup.writer, op).unwrap().state,
        IntentState::Preparing
    );
    reopened.reconcile_startup(&mut setup.dag).unwrap();
    let ended = reopened.intent(setup.writer, op).unwrap();
    assert_eq!(ended.state, IntentState::Aborted);
    assert!(!ended.pinned);
    assert_eq!(
        reopened.abort(op, setup.writer, None).unwrap().state,
        IntentState::Aborted
    );
}

#[test]
fn a_committed_write_reads_back_and_a_view_stays() {
    let mut store = FileStore::open_default().unwrap();
    let op = store.allocate_operation_id().unwrap();
    let collection = store.create_collection("docs", op).unwrap();
    let op = store.allocate_operation_id().unwrap();
    let file = store.create_file(collection, "f", op).unwrap();
    let op = store.allocate_operation_id().unwrap();
    let head = store.head(file).unwrap();
    let mut txn = store.begin_write(file, head, op).unwrap();
    txn.write_range(2..5, b"abc").unwrap();
    assert_eq!(
        txn.write_range(4..6, b"!!"),
        Err(NativeError::OverlappingWrite)
    );
    assert_eq!(
        txn.write_range(9..8, b""),
        Err(NativeError::InvalidRange)
    );
    txn.commit(&mut store).unwrap();
    let view = store.open_file_view(file, None).unwrap();
    let op = store.allocate_operation_id().unwrap();
    let head = store.head(file).unwrap();
    let mut txn = store.begin_write(file, head, op).unwrap();
    txn.truncate(1).unwrap();
    txn.commit(&mut store).unwrap();
    let mut seen = [0xff; 5];
    assert_eq!(view.read_range(&store, 0..5, &mut seen), Ok(5));
    assert_eq!(&seen, b"\0\0abc");
    store.close_snapshot(view);
    let now = store.open_file_view(file, None).unwrap();
    assert_eq!(now.len(), 1);
    assert_eq!(
        store.open_snapshot(file, Some(VersionId(99))).map(|_| ()),
        Err(NativeError::SnapshotNotFound)
    );
}

#[test]
fn the_durable_graph_reports_each_problem() {
    let mut store = FileDagStore::open(SimDisk::new(256)).unwrap();
    assert!(matches!(
        store.append_node(&Node::Content(ContentNode {
            bytes: vec![1; 300]
        })),
        Err(FileDagStoreError::CapacityExhausted { .. })
    ));
    assert_eq!(store.next_offset(), 0);
    let node = Node::ZeroRun(ZeroRunNode { len: 3 });
    let id = store.append_node(&node).unwrap();
    let end = store.next_offset();
    assert_eq!(store.append_node(&node).unwrap(), id);
    assert_eq!(store.next_offset(), end);
    assert_eq!(store.node(&id).unwrap(), Some(node));
    assert_eq!(store.node(&[1; 32]).unwrap(), None);
    assert!(matches!(
        store.append_node(&Node::ZeroRun(ZeroRunNode {
            len: MAX_LOGICAL_FILE_SIZE + 1
        })),
        Err(FileDagStoreError::Dag(DagError::ResourceLimit(_)))
    ));
}

#[test]
fn an_appended_node_survives_a_power_loss() {
    let mut store = FileDagStore::open(SimDisk::new(4096)).unwrap();
    let node = Node::ZeroRun(ZeroRunNode { len: 7 });
    let id = store.append_node(&node).unwrap();
    let end = store.next_offset();
    let mut disk = store.into_inner();
    disk.power_loss();
    let mut reopened = FileDagStore::open(disk).unwrap();
    assert_eq!(reopened.next_offset(), end);
    assert_eq!(reopened.node(&id).unwrap(), Some(node));
}

#[test]
fn an_append_that_is_cut_short_is_done_or_not() {
    let first = Node::ZeroRun(ZeroRunNode { len: 7 });
    let second = Node::ZeroRun(ZeroRunNode { len: 8 });
    let mut kept = 0;
    for cut in 0..24 {
        let script = on_write(cut, DeviceEffect::CrashBefore);
        let disk = SimDisk::from_script(4096, script).unwrap();
        let Ok(mut store) = FileDagStore::open(disk) else {
            continue;
        };
        let Ok(known) = store.append_node(&first) else {
            continue;
        };
        let end = store.next_offset();
        let appended = store.append_node(&second);
        let grown = store.next_offset();
        let mut disk = store.into_inner();
        disk.power_loss();
        let mut reopened = FileDagStore::open(disk).unwrap();
        assert_eq!(reopened.node(&known).unwrap(), Some(first.clone()));
        match appended {
            Ok(id) => {
                assert_eq!(reopened.next_offset(), grown);
                assert_eq!(reopened.node(&id).unwrap(), Some(second.clone()));
            }
            Err(_) => {
                assert_eq!(reopened.next_offset(), end);
                kept += 1;
            }
        }
    }
    assert!(kept > 0);
}
