//! The rules of the single-coordinator catalog as a state machine.
use vstd::prelude::*;

use crate::catalog::graph::Graph;
use crate::catalog::ids::{
    CollectionId, CommitId, CommitReceipt, FileId, OperationId, PrincipalId, VersionId,
};
use crate::catalog::names::name_of;
use crate::catalog::node::NodeView;
use crate::catalog::rules::{
    collection_request, file_request, next_epoch, opened, publish_request, same_request,
    version_named,
};
use crate::catalog::types::{
    Candidate, Capability, CatalogError, CollectionView, FileVersion, FileView, Head, IndexState,
    IntentState, MemberKey, OperationKind, OperationRecord, OperationResult, Principal,
    PrincipalState,
};
use crate::model::types::{DagOperationIndexEntry, IntentView};

verus! {

/// What the catalog holds.
#[verifier::ext_equal]
pub struct BasicView {
    pub next_principal: u64,
    pub next_collection: u64,
    pub next_file: u64,
    pub next_version: u64,
    pub next_operation: u64,
    pub global_authz_epoch: u64,
    pub coordinator_epoch: u64,
    pub principals: Map<PrincipalId, Principal>,
    pub collections: Map<CollectionId, CollectionView>,
    pub files: Map<FileId, FileView>,
    pub versions: Map<FileId, Seq<FileVersion>>,
    pub intents: Map<OperationId, IntentView>,
    pub operations: Map<OperationId, OperationRecord>,
    pub dag_index: Map<OperationId, DagOperationIndexEntry>,
    pub memberships: Map<MemberKey, Capability>,
    pub retention_roots: Set<CommitId>,
    pub reader_pins: Set<CommitId>,
}

/// What a request answers, and the catalog after it.
pub type Outcome<T> = (Result<T, CatalogError>, BasicView);

/// The catalog that was just made: its first coordinator has epoch one.
pub open spec fn fresh() -> BasicView {
    BasicView {
        next_principal: 0,
        next_collection: 0,
        next_file: 0,
        next_version: 0,
        next_operation: 0,
        global_authz_epoch: 0,
        coordinator_epoch: 1,
        principals: Map::empty(),
        collections: Map::empty(),
        files: Map::empty(),
        versions: Map::empty(),
        intents: Map::empty(),
        operations: Map::empty(),
        dag_index: Map::empty(),
        memberships: Map::empty(),
        retention_roots: Set::empty(),
        reader_pins: Set::empty(),
    }
}

/// Whether a member's capability in an organization is enough.
pub open spec fn holds(
    v: BasicView,
    organization: PrincipalId,
    member: PrincipalId,
    required: Capability,
) -> bool {
    let key = MemberKey { organization, member };
    v.memberships.dom().contains(key) && v.memberships[key].covers(required)
}

/// Why an actor may not act on what an owner has, if it may not.
pub open spec fn auth_problem(
    v: BasicView,
    actor: PrincipalId,
    owner: PrincipalId,
    required: Capability,
) -> Option<CatalogError> {
    if !v.principals.dom().contains(actor) {
        Some(CatalogError::NotFound)
    } else if v.principals[actor].state is Disabled {
        Some(CatalogError::PrincipalDisabled)
    } else if !v.principals.dom().contains(owner) {
        Some(CatalogError::NotFound)
    } else if v.principals[owner].state is Disabled {
        Some(CatalogError::PrincipalDisabled)
    } else if actor == owner || (v.principals[owner].kind is Organization && holds(
        v,
        owner,
        actor,
        required,
    )) {
        None
    } else {
        Some(CatalogError::PermissionDenied)
    }
}

/// Why an actor may not write a file, if it may not.
pub open spec fn file_problem(v: BasicView, actor: PrincipalId, file: FileId) -> Option<
    CatalogError,
> {
    if !v.files.dom().contains(file) || !v.collections.dom().contains(v.files[file].collection) {
        Some(CatalogError::NotFound)
    } else {
        auth_problem(
            v,
            actor,
            v.collections[v.files[file].collection].owner,
            Capability::Write,
        )
    }
}

/// Why the epochs of the two principals cannot move on, if they cannot.
pub open spec fn bump_problem(v: BasicView, first: PrincipalId, second: PrincipalId) -> Option<
    CatalogError,
> {
    if v.global_authz_epoch == u64::MAX {
        Some(CatalogError::EpochExhausted)
    } else if !v.principals.dom().contains(first) {
        Some(CatalogError::NotFound)
    } else if v.principals[first].authz_epoch == u64::MAX {
        Some(CatalogError::EpochExhausted)
    } else if !v.principals.dom().contains(second) {
        Some(CatalogError::NotFound)
    } else if v.principals[second].authz_epoch == u64::MAX {
        Some(CatalogError::EpochExhausted)
    } else {
        None
    }
}

/// The catalog with its own authorization epoch and those of two principals moved on.
pub open spec fn bumped(v: BasicView, first: PrincipalId, second: PrincipalId) -> BasicView {
    let one = v.principals.insert(first, next_epoch(v.principals[first]));
    BasicView {
        global_authz_epoch: (v.global_authz_epoch + 1) as u64,
        principals: if first == second {
            one
        } else {
            one.insert(second, next_epoch(v.principals[second]))
        },
        ..v
    }
}

/// Why a membership cannot be changed, if it cannot.
pub open spec fn membership_problem(
    v: BasicView,
    actor: PrincipalId,
    organization: PrincipalId,
    member: PrincipalId,
) -> Option<CatalogError> {
    match auth_problem(v, actor, organization, Capability::ManageMembers) {
        Some(error) => Some(error),
        None => if v.principals[organization].kind is User {
            Some(CatalogError::InvalidOrganization)
        } else if !v.principals.dom().contains(member) {
            Some(CatalogError::NotFound)
        } else {
            bump_problem(v, organization, member)
        },
    }
}

/// What setting the state of a principal does.
pub open spec fn state_outcome(v: BasicView, id: PrincipalId, state: PrincipalState) -> Outcome<
    (),
> {
    if !v.principals.dom().contains(id) {
        (Err(CatalogError::NotFound), v)
    } else {
        match bump_problem(v, id, id) {
            Some(error) => (Err(error), v),
            None => {
                let w = bumped(v, id, id);
                (
                    Ok(()),
                    BasicView {
                        principals: w.principals.insert(
                            id,
                            Principal { state, ..w.principals[id] },
                        ),
                        ..w
                    },
                )
            },
        }
    }
}

/// What is known of a request: its result if it has ended, `None` if it is to be
/// carried out.
pub open spec fn reserve_outcome(
    v: BasicView,
    op: OperationId,
    actor: PrincipalId,
    kind: OperationKind,
    fingerprint: [u8; 32],
) -> Outcome<Option<OperationResult>> {
    if v.operations.dom().contains(op) {
        let record = v.operations[op];
        if !same_request(record, actor, kind, fingerprint) {
            (Err(CatalogError::OperationConflict), v)
        } else {
            match record.error {
                Some(error) => (Err(error), v),
                None => (Ok(record.result), v),
            }
        }
    } else {
        (
            Ok(None),
            BasicView {
                operations: v.operations.insert(op, opened(op, actor, kind, fingerprint)),
                ..v
            },
        )
    }
}

/// The catalog with the end of a request recorded.
pub open spec fn completed(
    v: BasicView,
    op: OperationId,
    end: Result<OperationResult, CatalogError>,
) -> BasicView {
    if v.operations.dom().contains(op) {
        let record = match end {
            Ok(result) => OperationRecord { result: Some(result), ..v.operations[op] },
            Err(error) => OperationRecord { error: Some(error), ..v.operations[op] },
        };
        BasicView { operations: v.operations.insert(op, record), ..v }
    } else {
        v
    }
}

/// Whether the owner has a collection of that name.
pub open spec fn collection_named(v: BasicView, owner: PrincipalId, name: Seq<char>) -> bool {
    exists|id: CollectionId| #[trigger]
        v.collections.dom().contains(id) && v.collections[id].owner == owner
            && v.collections[id].name == name
}

/// Whether the collection has a file of that name.
pub open spec fn file_named(v: BasicView, collection: CollectionId, name: Seq<char>) -> bool {
    exists|id: FileId| #[trigger]
        v.files.dom().contains(id) && v.files[id].collection == collection && v.files[id].name
            == name
}

/// Making a collection, once the request is taken in.
pub open spec fn add_collection(
    v: BasicView,
    actor: PrincipalId,
    owner: PrincipalId,
    name: Seq<char>,
) -> Outcome<CollectionId> {
    match auth_problem(v, actor, owner, Capability::ManageMembers) {
        Some(error) => (Err(error), v),
        None => if collection_named(v, owner, name) {
            (Err(CatalogError::NameTaken), v)
        } else if v.next_collection == u64::MAX {
            (Err(CatalogError::IdExhausted), v)
        } else {
            let id = CollectionId(v.next_collection);
            (
                Ok(id),
                BasicView {
                    next_collection: (v.next_collection + 1) as u64,
                    collections: v.collections.insert(id, CollectionView { id, owner, name }),
                    ..v
                },
            )
        },
    }
}

/// Making a file, once the request is taken in.
pub open spec fn add_file(
    v: BasicView,
    actor: PrincipalId,
    collection: CollectionId,
    name: Seq<char>,
) -> Outcome<FileId> {
    if !v.collections.dom().contains(collection) {
        (Err(CatalogError::NotFound), v)
    } else {
        match auth_problem(v, actor, v.collections[collection].owner, Capability::Write) {
            Some(error) => (Err(error), v),
            None => if file_named(v, collection, name) {
                (Err(CatalogError::NameTaken), v)
            } else if v.next_file == u64::MAX {
                (Err(CatalogError::IdExhausted), v)
            } else {
                let id = FileId(v.next_file);
                let head = Head { version_id: None, generation: 0 };
                (
                    Ok(id),
                    BasicView {
                        next_file: (v.next_file + 1) as u64,
                        files: v.files.insert(id, FileView { id, collection, name, head }),
                        ..v
                    },
                )
            },
        }
    }
}

/// What a request to make a collection does. A name that is no name is refused before
/// the request is taken in.
pub open spec fn create_collection_outcome(
    v: BasicView,
    actor: PrincipalId,
    owner: PrincipalId,
    text: Seq<char>,
    op: OperationId,
) -> Outcome<CollectionId> {
    match name_of(text) {
        Err(error) => (Err(error), v),
        Ok(name) => {
            let taken = reserve_outcome(
                v,
                op,
                actor,
                OperationKind::CreateCollection,
                collection_request(actor, owner, name),
            );
            match taken.0 {
                Err(error) => (Err(error), taken.1),
                Ok(Some(OperationResult::Collection(id))) => (Ok(id), taken.1),
                Ok(Some(_)) => (Err(CatalogError::OperationConflict), taken.1),
                Ok(None) => {
                    let made = add_collection(taken.1, actor, owner, name);
                    let end = match made.0 {
                        Ok(id) => Ok(OperationResult::Collection(id)),
                        Err(error) => Err(error),
                    };
                    (made.0, completed(made.1, op, end))
                },
            }
        },
    }
}

/// What a request to make a file does. A name that is no name is refused before the
/// request is taken in.
pub open spec fn create_file_outcome(
    v: BasicView,
    actor: PrincipalId,
    collection: CollectionId,
    text: Seq<char>,
    op: OperationId,
) -> Outcome<FileId> {
    match name_of(text) {
        Err(error) => (Err(error), v),
        Ok(name) => {
            let taken = reserve_outcome(
                v,
                op,
                actor,
                OperationKind::CreateFile,
                file_request(actor, collection, name),
            );
            match taken.0 {
                Err(error) => (Err(error), taken.1),
                Ok(Some(OperationResult::File(id))) => (Ok(id), taken.1),
                Ok(Some(_)) => (Err(CatalogError::OperationConflict), taken.1),
                Ok(None) => {
                    let made = add_file(taken.1, actor, collection, name);
                    let end = match made.0 {
                        Ok(id) => Ok(OperationResult::File(id)),
                        Err(error) => Err(error),
                    };
                    (made.0, completed(made.1, op, end))
                },
            }
        },
    }
}

/// Beginning a publication, once the request is taken in. A version number is used up
/// even where the generations are.
pub open spec fn add_intent(
    v: BasicView,
    actor: PrincipalId,
    file: FileId,
    op: OperationId,
    expected: Head,
) -> Outcome<IntentView> {
    match file_problem(v, actor, file) {
        Some(error) => (Err(error), v),
        None => if v.files[file].head != expected {
            (Err(CatalogError::HeadConflict), v)
        } else if v.next_version == u64::MAX {
            (Err(CatalogError::IdExhausted), v)
        } else {
            let w = BasicView { next_version: (v.next_version + 1) as u64, ..v };
            if expected.generation == u64::MAX {
                (Err(CatalogError::GenerationExhausted), w)
            } else {
                let intent = IntentView {
                    operation_id: op,
                    actor,
                    file,
                    state: IntentState::Preparing,
                    authz_epoch: v.principals[actor].authz_epoch,
                    global_authz_epoch: v.global_authz_epoch,
                    expected_head: expected,
                    base: match expected.version_id {
                        Some(_) => Some(expected),
                        None => None,
                    },
                    version_id: VersionId(v.next_version),
                    candidate: None,
                    abort_reason: None,
                    owner_fence: Some(v.coordinator_epoch),
                    pinned: true,
                };
                (Ok(intent), BasicView { intents: v.intents.insert(op, intent), ..w })
            }
        },
    }
}

/// What a request to begin a publication does. One that is known is answered from what
/// is recorded.
pub open spec fn begin_publish_outcome(
    v: BasicView,
    actor: PrincipalId,
    file: FileId,
    op: OperationId,
    expected: Head,
) -> Outcome<IntentView> {
    let fingerprint = publish_request(actor, file, expected);
    if v.operations.dom().contains(op) {
        let record = v.operations[op];
        if !same_request(record, actor, OperationKind::Publish, fingerprint) {
            (Err(CatalogError::OperationConflict), v)
        } else {
            match record.error {
                Some(error) => (Err(error), v),
                None => if v.intents.dom().contains(op) {
                    (Ok(v.intents[op]), v)
                } else if record.result is Some {
                    (Err(CatalogError::InvalidIntent), v)
                } else {
                    (Err(CatalogError::NotFound), v)
                },
            }
        }
    } else {
        let w = BasicView {
            operations: v.operations.insert(
                op,
                opened(op, actor, OperationKind::Publish, fingerprint),
            ),
            ..v
        };
        let made = add_intent(w, actor, file, op, expected);
        match made.0 {
            Ok(intent) => made,
            Err(error) => (Err(error), completed(made.1, op, Err(error))),
        }
    }
}

/// Whether the epoch is the current claim on the intent.
pub open spec fn fenced(v: BasicView, intent: IntentView, fence: u64) -> bool {
    intent.owner_fence == Some(fence) && fence == v.coordinator_epoch
}

/// The receipt of a commit that the graph holds, under its own name and with its
/// snapshot, or why there is none.
pub open spec fn receipt_of(graph: Graph, op: OperationId, commit: CommitId) -> Result<
    CommitReceipt,
    CatalogError,
> {
    if !graph.dom().contains(commit) {
        Err(CatalogError::InvalidCommit)
    } else {
        match graph[commit] {
            NodeView::Commit(node) => if NodeView::Commit(node).digest() != commit@ {
                Err(CatalogError::InvalidCommit)
            } else if !graph.dom().contains(node.snapshot) {
                Err(CatalogError::InvalidReceipt)
            } else {
                match graph[node.snapshot] {
                    NodeView::Snapshot(snapshot) => Ok(
                        CommitReceipt {
                            operation_id: op,
                            commit_id: commit,
                            snapshot_id: node.snapshot,
                            snapshot_size: snapshot.logical_size,
                            snapshot_digest: snapshot.content_digest,
                            parent: node.parent,
                        },
                    ),
                    _ => Err(CatalogError::InvalidReceipt),
                }
            },
            _ => Err(CatalogError::InvalidCommit),
        }
    }
}

/// Taking in the receipt of a commit.
pub open spec fn register_outcome(
    v: BasicView,
    graph: Graph,
    op: OperationId,
    fence: u64,
    commit: CommitId,
) -> Outcome<CommitReceipt> {
    if !v.intents.dom().contains(op) {
        (Err(CatalogError::NotFound), v)
    } else if v.intents[op].state.ended() {
        (Err(CatalogError::InvalidIntent), v)
    } else if !fenced(v, v.intents[op], fence) {
        (Err(CatalogError::FenceLost), v)
    } else {
        match receipt_of(graph, op, commit) {
            Err(error) => (Err(error), v),
            Ok(receipt) => if v.dag_index.dom().contains(op) {
                if v.dag_index[op].receipt != receipt {
                    (Err(CatalogError::OperationConflict), v)
                } else {
                    (Ok(receipt), v)
                }
            } else {
                (
                    Ok(receipt),
                    BasicView {
                        dag_index: v.dag_index.insert(
                            op,
                            DagOperationIndexEntry {
                                receipt,
                                state: IndexState::Active,
                                has_roots: true,
                            },
                        ),
                        ..v
                    },
                )
            },
        }
    }
}

/// The commit of a version of a file.
pub open spec fn commit_named(v: BasicView, file: FileId, version: Option<VersionId>) -> Option<
    CommitId,
> {
    match version {
        Some(id) => if v.versions.dom().contains(file) {
            match version_named(v.versions[file], id) {
                Some(version) => Some(version.commit_id),
                None => None,
            }
        } else {
            None
        },
        None => None,
    }
}

/// The commit that a candidate of the intent must have as its parent.
pub open spec fn parent_commit(v: BasicView, intent: IntentView) -> Option<CommitId> {
    match intent.base {
        Some(head) => commit_named(v, intent.file, head.version_id),
        None => None,
    }
}

/// The catalog with a tombstone on the receipt of an operation.
pub open spec fn tombstoned(v: BasicView, op: OperationId) -> BasicView {
    if v.dag_index.dom().contains(op) {
        BasicView {
            dag_index: v.dag_index.insert(
                op,
                DagOperationIndexEntry {
                    state: IndexState::Tombstoned,
                    has_roots: false,
                    ..v.dag_index[op]
                },
            ),
            ..v
        }
    } else {
        v
    }
}

/// The catalog with an intent given up.
pub open spec fn given_up(
    v: BasicView,
    op: OperationId,
    reason: Seq<char>,
    error: Option<CatalogError>,
) -> BasicView {
    let intent = IntentView {
        state: IntentState::Aborted,
        abort_reason: Some(reason),
        owner_fence: None,
        pinned: false,
        ..v.intents[op]
    };
    let w = tombstoned(BasicView { intents: v.intents.insert(op, intent), ..v }, op);
    completed(
        w,
        op,
        match error {
            Some(error) => Err(error),
            None => Ok(OperationResult::Aborted),
        },
    )
}

/// Giving up an intent. One that has ended is left alone.
pub open spec fn give_up_outcome(
    v: BasicView,
    op: OperationId,
    fence: u64,
    reason: Seq<char>,
    error: Option<CatalogError>,
) -> Outcome<()> {
    if !v.intents.dom().contains(op) {
        (Err(CatalogError::NotFound), v)
    } else if v.intents[op].state.ended() {
        (Ok(()), v)
    } else if !fenced(v, v.intents[op], fence) {
        (Err(CatalogError::FenceLost), v)
    } else {
        (Ok(()), given_up(v, op, reason, error))
    }
}

/// Attaching the receipt to the intent. One that does not continue the version that the
/// intent was begun on makes the intent be given up.
pub open spec fn bind_outcome(v: BasicView, op: OperationId, fence: u64) -> Outcome<IntentView> {
    if !v.dag_index.dom().contains(op) || !v.intents.dom().contains(op) {
        (Err(CatalogError::NotFound), v)
    } else {
        let intent = v.intents[op];
        let receipt = v.dag_index[op].receipt;
        if intent.state.ended() {
            (Ok(intent), v)
        } else if !fenced(v, intent, fence) {
            (Err(CatalogError::FenceLost), v)
        } else if receipt.parent != parent_commit(v, intent) {
            (
                Err(CatalogError::CandidateMismatch),
                given_up(
                    v,
                    op,
                    "candidate parent mismatch"@,
                    Some(CatalogError::CandidateMismatch),
                ),
            )
        } else {
            let bound = IntentView {
                candidate: Some(Candidate { version_id: intent.version_id, receipt }),
                state: IntentState::CommitDurable,
                ..intent
            };
            (Ok(bound), BasicView { intents: v.intents.insert(op, bound), ..v })
        }
    }
}

/// Whether the commit is a published version of the file.
pub open spec fn published(v: BasicView, file: FileId, commit: CommitId) -> bool {
    exists|of: FileId, k: int|
        v.versions.dom().contains(of) && 0 <= k < v.versions[of].len() && (
        #[trigger] v.versions[of][k]).file == file && v.versions[of][k].commit_id == commit
}

/// Why an intent that is claimed and bound is given up instead of published, if it is.
pub open spec fn conflict(v: BasicView, intent: IntentView, candidate: Candidate) -> Option<
    (Seq<char>, CatalogError),
> {
    if file_problem(v, intent.actor, intent.file) is Some {
        Some(("authorization changed"@, CatalogError::PermissionDenied))
    } else if v.principals[intent.actor].authz_epoch != intent.authz_epoch || v.global_authz_epoch
        != intent.global_authz_epoch || v.files[intent.file].head != intent.expected_head {
        Some(("head CAS failed"@, CatalogError::HeadConflict))
    } else if published(v, intent.file, candidate.receipt.commit_id) {
        Some(("duplicate Commit"@, CatalogError::DuplicateCommit))
    } else {
        None
    }
}

/// The version that an intent publishes.
pub open spec fn version_of(intent: IntentView, candidate: Candidate) -> FileVersion {
    FileVersion {
        id: candidate.version_id,
        file: intent.file,
        generation: (intent.expected_head.generation + 1) as u64,
        commit_id: candidate.receipt.commit_id,
        parent_version_id: intent.expected_head.version_id,
        size: candidate.receipt.snapshot_size,
        digest: candidate.receipt.snapshot_digest,
    }
}

/// The versions of a file.
pub open spec fn versions_of(v: BasicView, file: FileId) -> Seq<FileVersion> {
    if v.versions.dom().contains(file) {
        v.versions[file]
    } else {
        Seq::empty()
    }
}

/// The catalog with the version of an intent published.
pub open spec fn after_publish(v: BasicView, op: OperationId, version: FileVersion) -> BasicView {
    let intent = v.intents[op];
    let head = Head { version_id: Some(version.id), generation: version.generation };
    let w = BasicView {
        versions: v.versions.insert(intent.file, versions_of(v, intent.file).push(version)),
        files: v.files.insert(intent.file, FileView { head, ..v.files[intent.file] }),
        intents: v.intents.insert(
            op,
            IntentView {
                state: IntentState::Published,
                pinned: false,
                owner_fence: None,
                ..intent
            },
        ),
        ..v
    };
    completed(tombstoned(w, op), op, Ok(OperationResult::Version(version)))
}

/// What publishing does. One that has published answers the same again; one that was
/// given up answers why.
pub open spec fn publish_outcome(v: BasicView, op: OperationId, fence: u64) -> Outcome<
    FileVersion,
> {
    let recorded = if v.operations.dom().contains(op) {
        v.operations[op].result
    } else {
        None
    };
    match recorded {
        Some(OperationResult::Version(version)) => (Ok(version), v),
        _ => if !v.intents.dom().contains(op) {
            (Err(CatalogError::NotFound), v)
        } else {
            publish_intent(v, op, fence)
        },
    }
}

/// Publishing an intent that has not published.
pub open spec fn publish_intent(v: BasicView, op: OperationId, fence: u64) -> Outcome<
    FileVersion,
> {
    let intent = v.intents[op];
    if intent.state is Aborted {
        (
            Err(
                if v.operations.dom().contains(op) && v.operations[op].error is Some {
                    v.operations[op].error->0
                } else {
                    CatalogError::InvalidIntent
                },
            ),
            v,
        )
    } else if !fenced(v, intent, fence) {
        (Err(CatalogError::FenceLost), v)
    } else {
        match intent.candidate {
            None => (Err(CatalogError::InvalidIntent), v),
            Some(candidate) => if !v.files.dom().contains(intent.file)
                || !v.collections.dom().contains(v.files[intent.file].collection) {
                (Err(CatalogError::NotFound), v)
            } else {
                match conflict(v, intent, candidate) {
                    Some((reason, error)) => (
                        Err(error),
                        give_up_outcome(v, op, fence, reason, Some(error)).1,
                    ),
                    None => if intent.expected_head.generation == u64::MAX {
                        (Err(CatalogError::GenerationExhausted), v)
                    } else {
                        let version = version_of(intent, candidate);
                        (Ok(version), after_publish(v, op, version))
                    },
                }
            },
        }
    }
}

/// What giving up at the wish of an actor does.
pub open spec fn abort_outcome(v: BasicView, op: OperationId, actor: PrincipalId, fence: u64) -> Outcome<
    IntentView,
> {
    if !v.intents.dom().contains(op) {
        (Err(CatalogError::NotFound), v)
    } else {
        match file_problem(v, actor, v.intents[op].file) {
            Some(error) => (Err(error), v),
            None => shown_after(give_up_outcome(v, op, fence, "caller abort"@, None), op),
        }
    }
}

/// The intent after something was done to it.
pub open spec fn shown_after(done: Outcome<()>, op: OperationId) -> Outcome<IntentView> {
    match done.0 {
        Err(error) => (Err(error), done.1),
        Ok(_) => (Ok(done.1.intents[op]), done.1),
    }
}

/// What giving up in recovery does.
pub open spec fn recovery_abort_outcome(
    v: BasicView,
    op: OperationId,
    fence: u64,
    reason: Seq<char>,
) -> Outcome<IntentView> {
    shown_after(give_up_outcome(v, op, fence, reason, Some(CatalogError::InvalidIntent)), op)
}

/// Claiming an intent that nobody has claimed.
pub open spec fn claim_outcome(v: BasicView, op: OperationId) -> Outcome<u64> {
    if !v.intents.dom().contains(op) {
        (Err(CatalogError::NotFound), v)
    } else if v.intents[op].state.ended() {
        (Err(CatalogError::InvalidIntent), v)
    } else if v.intents[op].owner_fence is Some {
        (Err(CatalogError::FenceLost), v)
    } else {
        (
            Ok(v.coordinator_epoch),
            BasicView {
                intents: v.intents.insert(
                    op,
                    IntentView { owner_fence: Some(v.coordinator_epoch), ..v.intents[op] },
                ),
                ..v
            },
        )
    }
}

/// What recovering an intent does: one with a receipt is bound and published, or given
/// up; one without stays open.
pub open spec fn recover_outcome(v: BasicView, op: OperationId) -> Outcome<IntentView> {
    if !v.intents.dom().contains(op) {
        (Err(CatalogError::NotFound), v)
    } else if v.intents[op].state.ended() {
        (Ok(v.intents[op]), v)
    } else {
        let claimed = claim_outcome(v, op);
        match claimed.0 {
            Err(error) => (Err(error), claimed.1),
            Ok(fence) => if v.dag_index.dom().contains(op) {
                let bound = bind_outcome(claimed.1, op, fence);
                match bound.0 {
                    Err(error) => (Err(error), bound.1),
                    Ok(_) => {
                        let end = publish_outcome(bound.1, op, fence).1;
                        (Ok(end.intents[op]), end)
                    },
                }
            } else {
                (Ok(claimed.1.intents[op]), claimed.1)
            },
        }
    }
}

/// Whether any file has a version with that commit.
pub open spec fn any_version(v: BasicView, commit: CommitId) -> bool {
    exists|of: FileId, k: int|
        v.versions.dom().contains(of) && 0 <= k < v.versions[of].len() && (
        #[trigger] v.versions[of][k]).commit_id == commit
}

/// Whether an open intent has a candidate with that commit.
pub open spec fn any_candidate(v: BasicView, commit: CommitId) -> bool {
    exists|op: OperationId| #[trigger]
        v.intents.dom().contains(op) && !v.intents[op].state.ended() && v.intents[op].candidate
            is Some && v.intents[op].candidate->0.receipt.commit_id == commit
}

/// Whether the commit of an operation can be reclaimed: its receipt is tombstoned, and
/// no version, open intent, retention root or reader holds the commit.
pub open spec fn reclaimable(v: BasicView, op: OperationId) -> bool {
    &&& v.dag_index.dom().contains(op)
    &&& {
        let entry = v.dag_index[op];
        let commit = entry.receipt.commit_id;
        &&& entry.state is Tombstoned
        &&& !entry.has_roots
        &&& !any_version(v, commit)
        &&& !any_candidate(v, commit)
        &&& !v.retention_roots.contains(commit)
        &&& !v.reader_pins.contains(commit)
    }
}

/// The catalog after a crash: the coordinator has another epoch, and no intent is
/// claimed.
pub open spec fn reopened(v: BasicView) -> BasicView {
    BasicView {
        coordinator_epoch: (v.coordinator_epoch + 1) as u64,
        intents: Map::new(
            |op: OperationId| v.intents.dom().contains(op),
            |op: OperationId| IntentView { owner_fence: None, ..v.intents[op] },
        ),
        ..v
    }
}

} // verus!
