//! The single-coordinator catalog.
use cairn::catalog::dag::Dag;
use cairn::catalog::ids::{CommitId, FileId, OperationId, PrincipalId};
use cairn::catalog::names::norm;
use cairn::catalog::node::{content_digest, CommitNode, Node, RangeMapNode, SnapshotNode};
use cairn::catalog::types::{
    Capability, CatalogError, Head, IntentState, PrincipalKind, PrincipalState,
};
use cairn::model::catalog::ModelCatalog;
use cairn::table::Table;

fn setup() -> (ModelCatalog, PrincipalId, FileId, OperationId) {
    let mut c = ModelCatalog::new();
    let p = c.create_principal(PrincipalKind::User).unwrap();
    let a = c.allocate_operation_id().unwrap();
    let col = c.create_collection(p, p, "docs", a).unwrap();
    let b = c.allocate_operation_id().unwrap();
    let f = c.create_file(p, col, "a", b).unwrap();
    let o = c.allocate_operation_id().unwrap();
    (c, p, f, o)
}
fn commit(parent: Option<CommitId>) -> (Dag, CommitId) {
    let mut dag = Dag::new();
    let map = Node::RangeMap(RangeMapNode {
        level: 0,
        children: Vec::new(),
    });
    let map_id = dag.insert(map).unwrap();
    let snapshot = Node::Snapshot(SnapshotNode {
        logical_size: 0,
        range_map_root: map_id,
        content_digest: content_digest(&[]),
    });
    let snapshot_id = dag.insert(snapshot).unwrap();
    if let Some(parent) = parent {
        // The caller supplies a parent only when it was constructed in this DAG.
        assert!(dag.get(&parent).is_some());
    }
    let commit = Node::Commit(CommitNode {
        snapshot: snapshot_id,
        parent,
    });
    let commit_id = dag.insert(commit).unwrap();
    (dag, commit_id)
}
fn rec(c: &mut ModelCatalog, o: OperationId) -> CommitId {
    let (dag, id) = commit(None);
    let fence = fence(c, o);
    c.register_receipt(o, fence, &dag, id).unwrap();
    id
}
fn fence(c: &ModelCatalog, o: OperationId) -> u64 {
    c.intent(o).unwrap().owner_fence.unwrap()
}
#[test]
fn empty_head() {
    let (c, _, f, _) = setup();
    assert_eq!(
        c.head(f),
        Some(&Head {
            version_id: None,
            generation: 0
        })
    )
}
#[test]
fn ids_are_opaque() {
    let (_c, p, f, o) = setup();
    assert!(p.get() < f.get() || o.get() > 0)
}
#[test]
fn nfc() {
    assert_eq!(norm("e\u{301}").unwrap(), "é")
}
#[test]
fn names() {
    assert!(norm("a/b").is_err());
    assert!(norm("x\n").is_err())
}
#[test]
fn collection_retry() {
    let (mut c, p, _, _) = setup();
    let o = c.allocate_operation_id().unwrap();
    let a = c.create_collection(p, p, "z", o).unwrap();
    assert_eq!(c.create_collection(p, p, "z", o), Ok(a))
}
#[test]
fn op_conflict() {
    let (mut c, p, f, _) = setup();
    let o = c.allocate_operation_id().unwrap();
    c.begin_publish(p, f, o, *c.head(f).unwrap()).unwrap();
    assert_eq!(
        c.create_file(p, c.files.get(&f).unwrap().collection, "x", o),
        Err(CatalogError::OperationConflict)
    )
}
#[test]
fn publish() {
    let (mut c, p, f, o) = setup();
    c.begin_publish(p, f, o, *c.head(f).unwrap()).unwrap();
    rec(&mut c, o);
    let fence = fence(&c, o);
    c.bind_candidate(o, fence).unwrap();
    let v = c.publish(o, fence).unwrap();
    assert_eq!((v.generation, v.size, v.parent_version_id), (1, 0, None))
}
#[test]
fn publish_retry() {
    let (mut c, p, f, o) = setup();
    c.begin_publish(p, f, o, *c.head(f).unwrap()).unwrap();
    rec(&mut c, o);
    let fence = fence(&c, o);
    c.bind_candidate(o, fence).unwrap();
    let v = c.publish(o, fence).unwrap();
    assert_eq!(c.publish(o, fence), Ok(v))
}
#[test]
fn stale_cas_aborts() {
    let (mut c, p, f, o) = setup();
    c.begin_publish(p, f, o, *c.head(f).unwrap()).unwrap();
    rec(&mut c, o);
    let fence = fence(&c, o);
    c.bind_candidate(o, fence).unwrap();
    let mut file = c.files.get(&f).unwrap().clone();
    file.head.generation = 2;
    c.files.insert(f, file);
    assert_eq!(c.publish(o, fence), Err(CatalogError::HeadConflict));
    assert_eq!(c.intent(o).unwrap().state, IntentState::Aborted)
}
#[test]
fn forged_receipt_is_rejected() {
    let (mut c, p, f, o) = setup();
    c.begin_publish(p, f, o, *c.head(f).unwrap()).unwrap();
    assert_eq!(
        c.register_receipt(o, fence(&c, o), &Dag::new(), [9; 32]),
        Err(CatalogError::InvalidCommit)
    )
}
#[test]
fn recovery_abort() {
    let (mut c, p, f, o) = setup();
    c.begin_publish(p, f, o, *c.head(f).unwrap()).unwrap();
    c.disable(p).unwrap();
    let fence = fence(&c, o);
    assert_eq!(c.abort(o, p, fence), Err(CatalogError::PrincipalDisabled));
    c.recovery_abort(o, fence, "x").unwrap();
    assert_eq!(c.intent(o).unwrap().state, IntentState::Aborted)
}
#[test]
fn membership() {
    let (mut c, _p, f, o) = setup();
    let org = c.create_principal(PrincipalKind::Organization).unwrap();
    let m = c.create_principal(PrincipalKind::User).unwrap();
    c.grant_membership(org, org, m, Capability::Write).unwrap();
    assert_eq!(c.membership(org, m), Some(Capability::Write));
    let _ = f;
    let _ = o;
}
#[test]
fn capability_replacement_is_unique_and_invalidates_epochs() {
    let (mut c, _owner, _, _) = setup();
    let org = c.create_principal(PrincipalKind::Organization).unwrap();
    let member = c.create_principal(PrincipalKind::User).unwrap();
    c.grant_membership(org, org, member, Capability::Read)
        .unwrap();
    let before = c.principal(member).unwrap().authz_epoch;
    c.grant_membership(org, org, member, Capability::Write)
        .unwrap();
    assert_eq!(c.memberships.len(), 1);
    assert_eq!(c.membership(org, member), Some(Capability::Write));
    assert!(c.principal(member).unwrap().authz_epoch > before);
    assert!(c.auth(member, org, Capability::Read).is_err());
    assert!(c.auth(member, org, Capability::Write).is_ok());
}
#[test]
fn epoch_overflow_leaves_membership_mutation_atomic() {
    let (mut c, _owner, _, _) = setup();
    let org = c.create_principal(PrincipalKind::Organization).unwrap();
    let member = c.create_principal(PrincipalKind::User).unwrap();
    let mut principal = *c.principals.get(&member).unwrap();
    principal.authz_epoch = u64::MAX;
    c.principals.insert(member, principal);
    let global = c.global_authz_epoch;
    assert_eq!(
        c.grant_membership(org, org, member, Capability::Read),
        Err(CatalogError::EpochExhausted)
    );
    assert_eq!(c.global_authz_epoch, global);
    assert_eq!(c.membership(org, member), None);
}
#[test]
fn reopen() {
    let (mut c, p, f, o) = setup();
    c.begin_publish(p, f, o, *c.head(f).unwrap()).unwrap();
    rec(&mut c, o);
    let r = c.crash_reopen().unwrap();
    assert!(r.intent(o).unwrap().owner_fence.is_none());
    assert_eq!(r.dag_operation(o).unwrap().receipt.operation_id(), o)
}
#[test]
fn recover() {
    let (mut c, p, f, o) = setup();
    c.begin_publish(p, f, o, *c.head(f).unwrap()).unwrap();
    rec(&mut c, o);
    let mut c = c.crash_reopen().unwrap();
    assert_eq!(c.recover(o).unwrap().state, IntentState::Published)
}
#[test]
fn absent_receipt_stays_preparing_after_reopen() {
    let (mut c, p, f, o) = setup();
    c.begin_publish(p, f, o, *c.head(f).unwrap()).unwrap();
    let mut c = c.crash_reopen().unwrap();
    c.recover(o).unwrap();
    assert_eq!(c.intent(o).unwrap().state, IntentState::Preparing)
}
#[test]
fn reclaim() {
    let (mut c, p, f, o) = setup();
    c.begin_publish(p, f, o, *c.head(f).unwrap()).unwrap();
    rec(&mut c, o);
    let fence = fence(&c, o);
    c.recovery_abort(o, fence, "x").unwrap();
    // The tombstoned operation-index root is released, but no public API
    // can override live version or intent references.
    assert!(c.candidate_reclaimable(o))
}
#[test]
fn gc_root_closure_keeps_published_versions_and_reader_pins() {
    let (mut c, p, f, o) = setup();
    c.begin_publish(p, f, o, *c.head(f).unwrap()).unwrap();
    let commit = rec(&mut c, o);
    let fence = fence(&c, o);
    c.bind_candidate(o, fence).unwrap();
    c.publish(o, fence).unwrap();
    assert!(!c.candidate_reclaimable(o));
    c.versions = Table::new();
    let mut file = c.files.get(&f).unwrap().clone();
    file.head.version_id = None;
    c.files.insert(f, file);
    c.reader_pins.insert(commit, ());
    assert!(!c.candidate_reclaimable(o));
    c.reader_pins = Table::new();
    c.retention_roots.insert(commit, ());
    assert!(!c.candidate_reclaimable(o));
}
#[test]
fn stale_fence_and_nfc_uniqueness_are_rejected() {
    let (mut c, p, f, o) = setup();
    c.begin_publish(p, f, o, *c.head(f).unwrap()).unwrap();
    rec(&mut c, o);
    let old_fence = fence(&c, o);
    let mut reopened = c.crash_reopen().unwrap();
    assert_eq!(
        reopened.bind_candidate(o, old_fence),
        Err(CatalogError::FenceLost)
    );
    let new_fence = reopened.claim_recovery_fence(o).unwrap();
    reopened.bind_candidate(o, new_fence).unwrap();
    let op = reopened.allocate_operation_id().unwrap();
    assert!(reopened
        .create_file(p, reopened.files.get(&f).unwrap().collection, "e\u{301}", op)
        .is_ok());
    let duplicate = reopened.allocate_operation_id().unwrap();
    assert_eq!(
        reopened.create_file(p, reopened.files.get(&f).unwrap().collection, "é", duplicate),
        Err(CatalogError::NameTaken)
    );
}
#[test]
fn terminal_publish_failure_is_sticky_and_operation_queries_are_actor_scoped() {
    let (mut c, p, f, o) = setup();
    c.begin_publish(p, f, o, *c.head(f).unwrap()).unwrap();
    rec(&mut c, o);
    let fence = fence(&c, o);
    c.bind_candidate(o, fence).unwrap();
    let mut file = c.files.get(&f).unwrap().clone();
    file.head.generation = 9;
    c.files.insert(f, file);
    assert_eq!(c.publish(o, fence), Err(CatalogError::HeadConflict));
    assert_eq!(c.publish(o, fence), Err(CatalogError::HeadConflict));
    let stranger = c.create_principal(PrincipalKind::User).unwrap();
    assert_eq!(
        c.query_operation(stranger, o),
        Err(CatalogError::PermissionDenied)
    );
    assert!(c.query_operation(p, o).unwrap().is_some());
}

#[test]
fn enabling_again_revives_no_intent() {
    let (mut c, p, f, o) = setup();
    let head = *c.head(f).unwrap();
    c.begin_publish(p, f, o, head).unwrap();
    let held = fence(&c, o);
    rec(&mut c, o);
    c.bind_candidate(o, held).unwrap();
    let epoch = c.principal(p).unwrap().authz_epoch;
    let global = c.global_authz_epoch();
    c.disable(p).unwrap();
    c.enable(p).unwrap();
    let principal = c.principal(p).unwrap();
    assert_eq!(principal.state, PrincipalState::Active);
    assert_eq!(principal.authz_epoch, epoch + 2);
    assert_eq!(c.global_authz_epoch(), global + 2);
    assert_eq!(c.publish(o, held), Err(CatalogError::HeadConflict));
    assert_eq!(c.intent(o).unwrap().state, IntentState::Aborted);
    assert_eq!(c.publish(o, held), Err(CatalogError::HeadConflict));
}
