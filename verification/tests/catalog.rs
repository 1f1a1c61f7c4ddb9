//! The catalog protocol.
use cairn::catalog::dag::Dag;
use cairn::catalog::ids::{CommitId, CommitReceipt, FileId, OperationId, PrincipalId, VersionId};
use cairn::catalog::model::ModelCatalog;
use cairn::catalog::node::{
    content_digest, CommitNode, ContentNode, DagError, Node, NodeKind, RangeMapEntry, RangeMapNode,
    SnapshotNode,
};
use cairn::catalog::types::{
    Capability, CatalogError, CatalogHandoff, DagBindingState, FenceToken, FileVersion, Head,
    IndexState, IntentState, OperationKind, PrincipalKind, PrincipalState,
};
use cairn::table::Table;

fn setup() -> (ModelCatalog, PrincipalId, FileId, OperationId) {
    let mut catalog = ModelCatalog::new();
    let actor = catalog.create_principal(PrincipalKind::User).unwrap();
    let collection_op = catalog.allocate_operation_id().unwrap();
    let collection = catalog
        .create_collection(actor, actor, "docs", collection_op)
        .unwrap();
    let file_op = catalog.allocate_operation_id().unwrap();
    let file = catalog
        .create_file(actor, collection, "a", file_op)
        .unwrap();
    let operation = catalog.allocate_operation_id().unwrap();
    (catalog, actor, file, operation)
}

fn commit() -> (Dag, CommitId) {
    let mut dag = Dag::new();
    let map = dag
        .insert(Node::RangeMap(RangeMapNode {
            level: 0,
            children: vec![],
        }))
        .unwrap();
    let snapshot = dag
        .insert(Node::Snapshot(SnapshotNode {
            logical_size: 0,
            range_map_root: map,
            content_digest: content_digest(&[]),
        }))
        .unwrap();
    let commit = dag
        .insert(Node::Commit(CommitNode {
            snapshot,
            parent: None,
        }))
        .unwrap();
    (dag, commit)
}

fn register(
    catalog: &mut ModelCatalog,
    actor: PrincipalId,
    op: OperationId,
    dag: &mut Dag,
    commit: CommitId,
) -> FenceToken {
    let fence = catalog.claim_token(actor, op).unwrap();
    let handoff = dag.commit_operation(op, commit).unwrap();
    catalog
        .register_receipt(actor, op, fence, dag, handoff)
        .unwrap();
    fence
}

#[test]
fn dag_is_the_only_operation_binding_authority() {
    let (mut catalog, actor, file, op) = setup();
    catalog
        .begin_publish(actor, file, op, catalog.head(actor, file).unwrap(), None)
        .unwrap();
    let (mut dag, commit) = commit();
    let fence = catalog.claim_token(actor, op).unwrap();
    let handoff = dag.commit_operation(op, commit).unwrap();
    catalog
        .register_receipt(actor, op, fence, &dag, handoff)
        .unwrap();
    catalog.bind_candidate(actor, op, fence).unwrap();
    assert!(catalog.publish(actor, op, Some(fence)).is_ok());
}

#[test]
fn revoked_recovery_is_terminal_and_releases_claim() {
    let (mut catalog, actor, file, op) = setup();
    catalog
        .begin_publish(actor, file, op, catalog.head(actor, file).unwrap(), None)
        .unwrap();
    let (mut dag, commit) = commit();
    register(&mut catalog, actor, op, &mut dag, commit);
    let authority = ModelCatalog::system_authority();
    catalog.disable(&authority, actor).unwrap();
    let mut reopened = catalog.crash_reopen().unwrap();
    let authority = ModelCatalog::recovery_authority();
    assert_eq!(
        reopened.recover(&authority, &dag, op),
        Err(CatalogError::PrincipalDisabled)
    );
    let intent = &reopened.intents.get(&op).unwrap();
    assert_eq!(intent.state, IntentState::Aborted);
    assert!(!intent.pinned);
    assert!(intent.owner_fence.is_none());
    assert_eq!(
        reopened.operations.get(&op).unwrap().error,
        Some(CatalogError::PrincipalDisabled)
    );
}

#[test]
fn crash_between_dag_binding_and_catalog_import_recovers_from_dag() {
    let (mut catalog, actor, file, op) = setup();
    catalog
        .begin_publish(actor, file, op, catalog.head(actor, file).unwrap(), None)
        .unwrap();
    let (mut dag, commit) = commit();
    dag.commit_operation(op, commit).unwrap();
    let dag = dag.crash_reopen();
    let mut reopened = catalog.crash_reopen().unwrap();
    assert!(!reopened.handoffs.contains_key(&op));
    let authority = ModelCatalog::recovery_authority();
    let recovered = reopened.recover(&authority, &dag, op).unwrap();
    assert_eq!(recovered.state, IntentState::Published);
}

#[test]
fn terminal_retries_require_the_original_actor_but_no_fence_proof() {
    let (mut catalog, actor, file, op) = setup();
    catalog
        .begin_publish(actor, file, op, catalog.head(actor, file).unwrap(), None)
        .unwrap();
    let (mut dag, commit) = commit();
    let fence = register(&mut catalog, actor, op, &mut dag, commit);
    catalog.bind_candidate(actor, op, fence).unwrap();
    let version = catalog.publish(actor, op, Some(fence)).unwrap();
    let stranger = catalog.create_principal(PrincipalKind::User).unwrap();
    assert_eq!(
        catalog.publish(stranger, op, None),
        Err(CatalogError::PermissionDenied)
    );
    assert_eq!(catalog.publish(actor, op, None), Ok(version));
    assert_eq!(
        catalog.abort(op, stranger, None),
        Err(CatalogError::PermissionDenied)
    );
    assert_eq!(
        catalog.intent(stranger, op),
        Err(CatalogError::PermissionDenied)
    );
    assert_eq!(
        catalog.intent(actor, op).unwrap().state,
        IntentState::Published
    );
}

#[test]
fn terminal_publish_replay_rejects_tampered_operation_records() {
    let (mut catalog, actor, file, op) = setup();
    catalog
        .begin_publish(actor, file, op, catalog.head(actor, file).unwrap(), None)
        .unwrap();
    let (mut dag, commit) = commit();
    let fence = register(&mut catalog, actor, op, &mut dag, commit);
    catalog.bind_candidate(actor, op, fence).unwrap();
    catalog.publish(actor, op, Some(fence)).unwrap();
    let other_actor = catalog.create_principal(PrincipalKind::User).unwrap();

    let mut actor_mismatch = catalog.clone();
    let mut record = actor_mismatch.operations.take(&op).unwrap();
    record.actor = other_actor;
    actor_mismatch.operations.insert(op, record);
    assert_eq!(
        actor_mismatch.publish(actor, op, None),
        Err(CatalogError::OperationConflict)
    );

    let mut kind_mismatch = catalog.clone();
    let mut record = kind_mismatch.operations.take(&op).unwrap();
    record.kind = OperationKind::CreateFile;
    kind_mismatch.operations.insert(op, record);
    assert_eq!(
        kind_mismatch.publish(actor, op, None),
        Err(CatalogError::OperationConflict)
    );

    let mut fingerprint_mismatch = catalog.clone();
    let mut record = fingerprint_mismatch.operations.take(&op).unwrap();
    record.request_fingerprint = [0; 32];
    fingerprint_mismatch.operations.insert(op, record);
    assert_eq!(
        fingerprint_mismatch.publish(actor, op, None),
        Err(CatalogError::OperationConflict)
    );
}

#[test]
fn terminal_abort_replay_rejects_tampered_operation_records() {
    let (mut catalog, actor, file, op) = setup();
    catalog
        .begin_publish(actor, file, op, catalog.head(actor, file).unwrap(), None)
        .unwrap();
    let fence = catalog.claim_token(actor, op).unwrap();
    catalog.abort(op, actor, Some(fence)).unwrap();
    let other_actor = catalog.create_principal(PrincipalKind::User).unwrap();

    let mut actor_mismatch = catalog.clone();
    let mut record = actor_mismatch.operations.take(&op).unwrap();
    record.actor = other_actor;
    actor_mismatch.operations.insert(op, record);
    assert_eq!(
        actor_mismatch.abort(op, actor, None),
        Err(CatalogError::OperationConflict)
    );

    let mut kind_mismatch = catalog.clone();
    let mut record = kind_mismatch.operations.take(&op).unwrap();
    record.kind = OperationKind::CreateFile;
    kind_mismatch.operations.insert(op, record);
    assert_eq!(
        kind_mismatch.abort(op, actor, None),
        Err(CatalogError::OperationConflict)
    );

    let mut fingerprint_mismatch = catalog.clone();
    let mut record = fingerprint_mismatch.operations.take(&op).unwrap();
    record.request_fingerprint = [0; 32];
    fingerprint_mismatch.operations.insert(op, record);
    assert_eq!(
        fingerprint_mismatch.abort(op, actor, None),
        Err(CatalogError::OperationConflict)
    );
}

#[test]
fn begin_publish_nonterminal_retry_requires_fence_but_terminal_retry_does_not() {
    let (mut catalog, actor, file, op) = setup();
    let expected = catalog.head(actor, file).unwrap();
    catalog
        .begin_publish(actor, file, op, expected, None)
        .unwrap();
    let fence = catalog.claim_token(actor, op).unwrap();
    assert_eq!(
        catalog.begin_publish(actor, file, op, expected, None),
        Err(CatalogError::FenceLost)
    );
    assert_eq!(
        catalog
            .begin_publish(actor, file, op, expected, Some(fence))
            .unwrap()
            .state,
        IntentState::Preparing
    );

    let (mut dag, commit) = commit();
    register(&mut catalog, actor, op, &mut dag, commit);
    catalog.bind_candidate(actor, op, fence).unwrap();
    catalog.publish(actor, op, Some(fence)).unwrap();
    assert_eq!(
        catalog
            .begin_publish(actor, file, op, expected, None)
            .unwrap()
            .state,
        IntentState::Published
    );
    assert_eq!(
        catalog
            .begin_publish(actor, file, op, expected, Some(fence))
            .unwrap()
            .state,
        IntentState::Published
    );
    let stranger = catalog.create_principal(PrincipalKind::User).unwrap();
    assert_eq!(
        catalog.begin_publish(stranger, file, op, expected, Some(fence)),
        Err(CatalogError::PermissionDenied)
    );
}

#[test]
fn recovery_terminal_results_survive_reopen_without_fence_proofs() {
    let (mut catalog, actor, file, publish_op) = setup();
    let expected = catalog.head(actor, file).unwrap();
    catalog
        .begin_publish(actor, file, publish_op, expected, None)
        .unwrap();
    let (mut dag, first_commit) = commit();
    dag.commit_operation(publish_op, first_commit).unwrap();
    let mut reopened = catalog.crash_reopen().unwrap();
    let authority = ModelCatalog::recovery_authority();
    assert_eq!(
        reopened
            .recover(&authority, &dag, publish_op)
            .unwrap()
            .state,
        IntentState::Published
    );
    let published = reopened.publish(actor, publish_op, None).unwrap();
    let mut reopened = reopened.crash_reopen().unwrap();
    assert_eq!(reopened.publish(actor, publish_op, None), Ok(published));

    let abort_op = reopened.allocate_operation_id().unwrap();
    let expected = reopened.head(actor, file).unwrap();
    reopened
        .begin_publish(actor, file, abort_op, expected, None)
        .unwrap();
    // A parentless Commit cannot be the candidate for this non-initial head.
    let content = dag
        .insert(Node::Content(ContentNode {
            bytes: b"x".to_vec(),
        }))
        .unwrap();
    let map = dag
        .insert(Node::RangeMap(RangeMapNode {
            level: 0,
            children: vec![RangeMapEntry {
                logical_start: 0,
                logical_len: 1,
                content_offset: 0,
                child_kind: NodeKind::Content,
                child: content,
            }],
        }))
        .unwrap();
    let snapshot = dag
        .insert(Node::Snapshot(SnapshotNode {
            logical_size: 1,
            range_map_root: map,
            content_digest: content_digest(b"x"),
        }))
        .unwrap();
    let parentless_commit = dag
        .insert(Node::Commit(CommitNode {
            snapshot,
            parent: None,
        }))
        .unwrap();
    dag.commit_operation(abort_op, parentless_commit).unwrap();
    let mut reopened = reopened.crash_reopen().unwrap();
    assert_eq!(
        reopened.recover(&authority, &dag, abort_op),
        Err(CatalogError::CandidateMismatch)
    );
    assert_eq!(
        reopened.abort(abort_op, actor, None).unwrap().state,
        IntentState::Aborted
    );
    let mut reopened = reopened.crash_reopen().unwrap();
    assert_eq!(
        reopened.abort(abort_op, actor, None).unwrap().state,
        IntentState::Aborted
    );
    let stranger = reopened.create_principal(PrincipalKind::User).unwrap();
    assert_eq!(
        reopened.publish(stranger, publish_op, None),
        Err(CatalogError::PermissionDenied)
    );
    assert_eq!(
        reopened.abort(abort_op, stranger, None),
        Err(CatalogError::PermissionDenied)
    );
}

#[test]
fn operation_idempotency_nfc_and_actor_epoch_overflow_are_atomic() {
    let mut catalog = ModelCatalog::new();
    let owner = catalog.create_principal(PrincipalKind::User).unwrap();
    let op = catalog.allocate_operation_id().unwrap();
    let _collection = catalog
        .create_collection(owner, owner, "e\u{301}", op)
        .unwrap();
    assert_eq!(
        catalog.create_collection(owner, owner, "é", op),
        Err(CatalogError::OperationConflict)
    );
    let other_op = catalog.allocate_operation_id().unwrap();
    assert_eq!(
        catalog.create_collection(owner, owner, "é", other_op),
        Err(CatalogError::NameTaken)
    );
    assert_eq!(
        catalog.create_collection(owner, owner, "other", op),
        Err(CatalogError::OperationConflict)
    );

    let org = catalog
        .create_principal(PrincipalKind::Organization)
        .unwrap();
    let member = catalog.create_principal(PrincipalKind::User).unwrap();
    let mut record = catalog.principals.take(&member).unwrap();
    record.authz_epoch = u64::MAX;
    catalog.principals.insert(member, record);
    assert_eq!(
        catalog.grant_membership(org, org, member, Capability::Read),
        Err(CatalogError::EpochExhausted)
    );
    assert_eq!(catalog.membership(org, member), None);
}

#[test]
fn stale_fence_and_missing_binding_do_not_destroy_recoverable_intents() {
    let (mut catalog, actor, file, op) = setup();
    catalog
        .begin_publish(actor, file, op, catalog.head(actor, file).unwrap(), None)
        .unwrap();
    let (mut dag, first_commit) = commit();
    let old_fence = register(&mut catalog, actor, op, &mut dag, first_commit);
    let mut reopened = catalog.crash_reopen().unwrap();
    assert_eq!(
        reopened.bind_candidate(actor, op, old_fence),
        Err(CatalogError::FenceLost)
    );

    let missing_op = reopened.allocate_operation_id().unwrap();
    reopened
        .begin_publish(
            actor,
            file,
            missing_op,
            reopened.head(actor, file).unwrap(),
            None,
        )
        .unwrap();
    let authority = ModelCatalog::system_authority();
    reopened.disable(&authority, actor).unwrap();
    let mut reopened = reopened.crash_reopen().unwrap();
    let authority = ModelCatalog::recovery_authority();
    assert_eq!(
        reopened
            .recover(&authority, &dag, missing_op)
            .unwrap()
            .state,
        IntentState::Aborted
    );
    assert!(!reopened.intents.get(&missing_op).unwrap().pinned);
    assert_eq!(
        reopened
            .recover(&authority, &dag, missing_op)
            .unwrap()
            .state,
        IntentState::Aborted
    );
}

#[test]
fn actor_epoch_overflow_is_atomic() {
    let mut catalog = ModelCatalog::new();
    let org = catalog
        .create_principal(PrincipalKind::Organization)
        .unwrap();
    let member = catalog.create_principal(PrincipalKind::User).unwrap();
    let mut record = catalog.principals.take(&member).unwrap();
    record.authz_epoch = u64::MAX;
    catalog.principals.insert(member, record);
    assert_eq!(
        catalog.grant_membership(org, org, member, Capability::Read),
        Err(CatalogError::EpochExhausted)
    );
    assert_eq!(catalog.principal(org).unwrap().authz_epoch, 0);
    assert_eq!(catalog.membership(org, member), None);
}

#[test]
fn capability_replacement_overwrites_the_prior_grant() {
    let mut catalog = ModelCatalog::new();
    let org = catalog
        .create_principal(PrincipalKind::Organization)
        .unwrap();
    let member = catalog.create_principal(PrincipalKind::User).unwrap();
    catalog
        .grant_membership(org, org, member, Capability::Read)
        .unwrap();
    catalog
        .grant_membership(org, org, member, Capability::Write)
        .unwrap();
    assert_eq!(catalog.membership(org, member), Some(Capability::Write));
}

#[test]
fn published_version_roots_and_reader_pins_are_not_reclaimable() {
    let (dag, commit) = commit();
    let mut catalog = ModelCatalog::new();
    let op = catalog.allocate_operation_id().unwrap();
    let receipt = CommitReceipt {
        operation_id: op,
        commit_id: commit,
        snapshot_id: match dag.get(&commit).unwrap() {
            Node::Commit(node) => node.snapshot,
            _ => unreachable!(),
        },
        snapshot_size: 0,
        snapshot_digest: content_digest(&[]),
        parent: None,
    };
    catalog.handoffs.insert(
        op,
        CatalogHandoff {
            receipt: receipt.clone(),
            state: IndexState::Tombstoned,
            has_roots: false,
            binding: DagBindingState::Bound,
        },
    );
    let file = FileId(1);
    catalog.versions.insert(
        file,
        vec![FileVersion {
            id: VersionId(1),
            file,
            generation: 1,
            commit_id: commit,
            parent_version_id: None,
            size: 0,
            digest: receipt.snapshot_digest,
        }],
    );
    assert!(!catalog.candidate_reclaimable(&dag, op));
    catalog.versions = Table::new();
    catalog.reader_pins.insert(commit, 1);
    assert!(!catalog.candidate_reclaimable(&dag, op));
}

#[test]
fn reader_pin_counts_survive_one_of_two_handles_closing() {
    let (dag, commit) = commit();
    let (mut catalog, actor, file, _) = setup();
    let version = VersionId(1);
    catalog.versions.insert(
        file,
        vec![FileVersion {
            id: version,
            file,
            generation: 1,
            commit_id: commit,
            parent_version_id: None,
            size: 0,
            digest: content_digest(&[]),
        }],
    );
    catalog.pin_reader(actor, file, version, commit).unwrap();
    catalog.pin_reader(actor, file, version, commit).unwrap();
    assert_eq!(catalog.reader_pins.get(&commit), Some(&2));
    catalog.unpin_reader(commit);
    assert_eq!(catalog.reader_pins.get(&commit), Some(&1));
    catalog.unpin_reader(commit);
    assert!(!catalog.reader_pins.contains_key(&commit));
    assert!(dag.get(&commit).is_some());
}

#[test]
fn startup_accepts_pre_dag_abort_without_handoff() {
    let (mut catalog, actor, file, op) = setup();
    let head = catalog.head(actor, file).unwrap();
    catalog.begin_publish(actor, file, op, head, None).unwrap();
    let fence = catalog.claim_token(actor, op).unwrap();
    catalog.abort(op, actor, Some(fence)).unwrap();
    catalog.handoffs = Table::new();
    let mut dag = Dag::new();
    catalog.reconcile_startup(&mut dag).unwrap();
    assert_eq!(catalog.intents.get(&op).unwrap().state, IntentState::Aborted);
}

#[test]
fn startup_rejects_terminal_handoff_without_dag_proof() {
    let (mut catalog, actor, file, op) = setup();
    let head = catalog.head(actor, file).unwrap();
    catalog.begin_publish(actor, file, op, head, None).unwrap();
    let fence = catalog.claim_token(actor, op).unwrap();
    catalog.abort(op, actor, Some(fence)).unwrap();

    catalog.handoffs.insert(
        op,
        CatalogHandoff {
            receipt: CommitReceipt {
                operation_id: op,
                commit_id: [0; 32],
                snapshot_id: [0; 32],
                snapshot_size: 0,
                snapshot_digest: content_digest(&[]),
                parent: None,
            },
            state: IndexState::Tombstoned,
            has_roots: false,
            binding: DagBindingState::Bound,
        },
    );
    let mut dag_without_binding = Dag::new();
    assert_eq!(
        catalog.reconcile_startup(&mut dag_without_binding),
        Err(CatalogError::InvalidIntent)
    );
}

#[test]
fn terminal_catalog_permit_allows_a_tombstoned_candidate_to_be_reclaimed() {
    let (mut dag, commit) = commit();
    let (mut catalog, actor, file, op) = setup();
    catalog
        .begin_publish(actor, file, op, catalog.head(actor, file).unwrap(), None)
        .unwrap();
    let handoff = dag.commit_operation(op, commit).unwrap();
    let fence = catalog.claim_token(actor, op).unwrap();
    catalog
        .register_receipt(actor, op, fence, &dag, handoff.clone())
        .unwrap();
    catalog.bind_candidate(actor, op, fence).unwrap();
    catalog.publish(actor, op, Some(fence)).unwrap();
    catalog.versions = Table::new();
    assert!(!catalog.candidate_reclaimable(&dag, op));
    let permit = catalog.terminal_permit(op).unwrap();
    dag.tombstone_operation(op, handoff, permit).unwrap();
    assert!(catalog.candidate_reclaimable(&dag, op));
}

#[test]
fn active_dag_binding_retains_parent_despite_a_tombstoned_catalog_index() {
    let (mut dag, first) = commit();
    let snapshot = match dag.get(&first).unwrap() {
        Node::Commit(commit) => commit.snapshot,
        _ => unreachable!(),
    };
    let second = dag
        .insert(Node::Commit(CommitNode {
            snapshot,
            parent: Some(first),
        }))
        .unwrap();
    let (mut catalog, actor, file, first_op) = setup();
    catalog
        .begin_publish(
            actor,
            file,
            first_op,
            catalog.head(actor, file).unwrap(),
            None,
        )
        .unwrap();
    let first_handoff = dag.commit_operation(first_op, first).unwrap();
    let first_fence = catalog.claim_token(actor, first_op).unwrap();
    catalog
        .register_receipt(actor, first_op, first_fence, &dag, first_handoff.clone())
        .unwrap();
    catalog
        .bind_candidate(actor, first_op, first_fence)
        .unwrap();
    catalog.publish(actor, first_op, Some(first_fence)).unwrap();

    let second_op = catalog.allocate_operation_id().unwrap();
    catalog
        .begin_publish(
            actor,
            file,
            second_op,
            catalog.head(actor, file).unwrap(),
            None,
        )
        .unwrap();
    let second_handoff = dag.commit_operation(second_op, second).unwrap();
    let second_fence = catalog.claim_token(actor, second_op).unwrap();
    catalog
        .register_receipt(actor, second_op, second_fence, &dag, second_handoff)
        .unwrap();
    catalog
        .bind_candidate(actor, second_op, second_fence)
        .unwrap();
    catalog
        .publish(actor, second_op, Some(second_fence))
        .unwrap();

    // Both catalog entries are tombstoned after publish, but B's durable
    // DAG binding remains Active and must retain its parent A.
    catalog.versions = Table::new();
    let first_permit = catalog.terminal_permit(first_op).unwrap();
    dag.tombstone_operation(first_op, first_handoff, first_permit)
        .unwrap();
    assert!(!catalog.candidate_reclaimable(&dag, first_op));
}

#[test]
fn terminal_permit_rejects_incomplete_catalog_and_mismatched_receipt() {
    let (mut dag, first) = commit();
    let snapshot = match dag.get(&first).unwrap() {
        Node::Commit(commit) => commit.snapshot,
        _ => unreachable!(),
    };
    let second = dag
        .insert(Node::Commit(CommitNode {
            snapshot,
            parent: Some(first),
        }))
        .unwrap();
    let (mut catalog, actor, file, first_op) = setup();
    catalog
        .begin_publish(
            actor,
            file,
            first_op,
            catalog.head(actor, file).unwrap(),
            None,
        )
        .unwrap();
    let first_handoff = dag.commit_operation(first_op, first).unwrap();
    let first_fence = catalog.claim_token(actor, first_op).unwrap();
    catalog
        .register_receipt(actor, first_op, first_fence, &dag, first_handoff.clone())
        .unwrap();
    catalog
        .bind_candidate(actor, first_op, first_fence)
        .unwrap();
    assert!(matches!(
        catalog.terminal_permit(first_op),
        Err(CatalogError::InvalidIntent)
    ));
    assert!(dag.operation_binding(first_op).is_some());
    assert!(dag.crash_reopen().operation_binding(first_op).is_some());

    catalog.publish(actor, first_op, Some(first_fence)).unwrap();
    let permit = catalog.terminal_permit(first_op).unwrap();
    let second_op = catalog.allocate_operation_id().unwrap();
    let second_handoff = dag.commit_operation(second_op, second).unwrap();
    assert_eq!(
        dag.tombstone_operation(second_op, second_handoff, permit),
        Err(DagError::OperationConflict(second_op))
    );
    assert!(dag.operation_binding(second_op).is_some());
    assert!(dag.crash_reopen().operation_binding(second_op).is_some());
}

#[test]
fn catalog_tombstone_before_dag_tombstone_is_not_reclaimable_after_reopen() {
    let (mut dag, commit) = commit();
    let mut catalog = ModelCatalog::new();
    let op = catalog.allocate_operation_id().unwrap();
    let receipt = dag.commit_operation(op, commit).unwrap().receipt();
    catalog.handoffs.insert(
        op,
        CatalogHandoff {
            receipt,
            state: IndexState::Tombstoned,
            has_roots: false,
            binding: DagBindingState::Bound,
        },
    );
    let catalog = catalog.crash_reopen().unwrap();
    let dag = dag.crash_reopen();
    assert!(!catalog.candidate_reclaimable(&dag, op));
}

#[test]
fn invalid_create_names_reserve_sticky_errors_before_normalization() {
    let mut catalog = ModelCatalog::new();
    let actor = catalog.create_principal(PrincipalKind::User).unwrap();
    let collection_op = catalog.allocate_operation_id().unwrap();
    assert_eq!(
        catalog.create_collection(actor, actor, "bad/name", collection_op),
        Err(CatalogError::InvalidName)
    );
    assert_eq!(catalog.collections.len(), 0);
    assert_eq!(
        catalog.create_collection(actor, actor, "good", collection_op),
        Err(CatalogError::OperationConflict)
    );
    assert_eq!(
        catalog.operations.get(&collection_op).unwrap().error,
        Some(CatalogError::InvalidName)
    );

    let valid_collection_op = catalog.allocate_operation_id().unwrap();
    let collection = catalog
        .create_collection(actor, actor, "docs", valid_collection_op)
        .unwrap();
    let file_op = catalog.allocate_operation_id().unwrap();
    assert_eq!(
        catalog.create_file(actor, collection, "bad/name", file_op),
        Err(CatalogError::InvalidName)
    );
    assert_eq!(catalog.files.len(), 0);
    assert_eq!(
        catalog.create_file(actor, collection, "good", file_op),
        Err(CatalogError::OperationConflict)
    );
    assert_eq!(
        catalog.operations.get(&file_op).unwrap().error,
        Some(CatalogError::InvalidName)
    );
}

#[test]
fn dag_only_binding_survives_the_catalog_import_crash_window() {
    let (mut dag, target) = commit();
    let snapshot = match dag.get(&target).unwrap() {
        Node::Commit(node) => node.snapshot,
        _ => unreachable!(),
    };
    let dag_only_root = dag
        .insert(Node::Commit(CommitNode {
            snapshot,
            parent: Some(target),
        }))
        .unwrap();
    let mut catalog = ModelCatalog::new();
    let target_op = catalog.allocate_operation_id().unwrap();
    let dag_only_op = catalog.allocate_operation_id().unwrap();
    dag.commit_operation(dag_only_op, dag_only_root).unwrap();
    let dag = dag.crash_reopen();
    let receipt = CommitReceipt {
        operation_id: target_op,
        commit_id: target,
        snapshot_id: snapshot,
        snapshot_size: 0,
        snapshot_digest: content_digest(&[]),
        parent: None,
    };
    catalog.handoffs.insert(
        target_op,
        CatalogHandoff {
            receipt,
            state: IndexState::Tombstoned,
            has_roots: false,
            binding: DagBindingState::Bound,
        },
    );
    assert!(!catalog.candidate_reclaimable(&dag, target_op));
}

#[test]
fn operation_idempotency_and_sticky_failures_are_preserved() {
    let (mut catalog, actor, file, op) = setup();
    let stale = Head {
        version_id: None,
        generation: 1,
    };
    assert_eq!(
        catalog.begin_publish(actor, file, op, stale, None),
        Err(CatalogError::HeadConflict)
    );
    assert_eq!(
        catalog.begin_publish(actor, file, op, stale, None),
        Err(CatalogError::HeadConflict)
    );
    let collection_op = catalog.allocate_operation_id().unwrap();
    let collection = catalog
        .create_collection(actor, actor, "once", collection_op)
        .unwrap();
    assert_eq!(
        catalog.create_collection(actor, actor, "once", collection_op),
        Ok(collection)
    );
}

#[test]
fn stale_head_failure_is_sticky_and_operation_views_are_actor_scoped() {
    let (mut catalog, actor, file, op) = setup();
    let expected = catalog.head(actor, file).unwrap();
    catalog
        .begin_publish(actor, file, op, expected, None)
        .unwrap();
    let (mut dag, commit) = commit();
    let fence = register(&mut catalog, actor, op, &mut dag, commit);
    catalog.bind_candidate(actor, op, fence).unwrap();
    let mut record = catalog.files.take(&file).unwrap();
    record.head.generation += 1;
    catalog.files.insert(file, record);
    assert_eq!(
        catalog.publish(actor, op, Some(fence)),
        Err(CatalogError::HeadConflict)
    );
    assert_eq!(
        catalog.publish(actor, op, None),
        Err(CatalogError::HeadConflict)
    );
    let stranger = catalog.create_principal(PrincipalKind::User).unwrap();
    assert_eq!(
        catalog.query_operation(stranger, op),
        Err(CatalogError::PermissionDenied)
    );
}

#[test]
fn unrelated_organization_epoch_change_does_not_abort_publish() {
    let mut catalog = ModelCatalog::new();
    let org_a = catalog
        .create_principal(PrincipalKind::Organization)
        .unwrap();
    let org_b = catalog
        .create_principal(PrincipalKind::Organization)
        .unwrap();
    let writer_b = catalog.create_principal(PrincipalKind::User).unwrap();
    catalog
        .grant_membership(org_b, org_b, writer_b, Capability::ManageMembers)
        .unwrap();
    let collection_op = catalog.allocate_operation_id().unwrap();
    let collection = catalog
        .create_collection(writer_b, org_b, "b", collection_op)
        .unwrap();
    let file_op = catalog.allocate_operation_id().unwrap();
    let file = catalog
        .create_file(writer_b, collection, "b", file_op)
        .unwrap();
    let op = catalog.allocate_operation_id().unwrap();
    catalog
        .begin_publish(
            writer_b,
            file,
            op,
            catalog.head(writer_b, file).unwrap(),
            None,
        )
        .unwrap();
    let (mut dag, commit) = commit();
    let fence = register(&mut catalog, writer_b, op, &mut dag, commit);
    catalog.bind_candidate(writer_b, op, fence).unwrap();
    let unrelated = catalog.create_principal(PrincipalKind::User).unwrap();
    catalog
        .grant_membership(org_a, org_a, unrelated, Capability::Read)
        .unwrap();
    assert!(catalog.publish(writer_b, op, Some(fence)).is_ok());
}

#[test]
fn gc_keeps_shared_multi_level_parent_roots() {
    let (mut dag, first) = commit();
    let snapshot = match dag.get(&first).unwrap() {
        Node::Commit(commit) => commit.snapshot,
        _ => unreachable!(),
    };
    let second = dag
        .insert(Node::Commit(CommitNode {
            snapshot,
            parent: Some(first),
        }))
        .unwrap();
    let third = dag
        .insert(Node::Commit(CommitNode {
            snapshot,
            parent: Some(first),
        }))
        .unwrap();
    let mut catalog = ModelCatalog::new();
    let op = catalog.allocate_operation_id().unwrap();
    let receipt = dag.commit_operation(op, first).unwrap().receipt();
    catalog.handoffs.insert(
        op,
        CatalogHandoff {
            receipt,
            state: IndexState::Tombstoned,
            has_roots: false,
            binding: DagBindingState::Bound,
        },
    );
    catalog.retention_roots.insert(second, ());
    catalog.reader_pins.insert(third, 1);
    assert!(!catalog.candidate_reclaimable(&dag, op));
}

#[test]
fn system_authority_is_not_a_principal() {
    let mut catalog = ModelCatalog::new();
    let org_a = catalog
        .create_principal(PrincipalKind::Organization)
        .unwrap();
    let manager_a = catalog.create_principal(PrincipalKind::User).unwrap();
    let org_b = catalog
        .create_principal(PrincipalKind::Organization)
        .unwrap();
    let user_b = catalog.create_principal(PrincipalKind::User).unwrap();
    catalog
        .grant_membership(org_a, org_a, manager_a, Capability::ManageMembers)
        .unwrap();
    catalog
        .grant_membership(org_b, org_b, user_b, Capability::Read)
        .unwrap();
    let principal_count = catalog.principals.len();
    let authority = ModelCatalog::system_authority();
    catalog.disable(&authority, user_b).unwrap();
    assert_eq!(catalog.principals.len(), principal_count);
    assert!((0..catalog.principals.len()).all(|i| {
        matches!(
            catalog.principals.value_at(i).kind,
            PrincipalKind::User | PrincipalKind::Organization
        )
    }));
    assert_eq!(
        catalog.principal(user_b).unwrap().state,
        PrincipalState::Disabled
    );
}
