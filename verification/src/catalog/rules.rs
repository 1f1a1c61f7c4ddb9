//! The rules of the catalog as a state machine: what each request answers and what
//! it leaves behind.
use vstd::prelude::*;
use vstd::string::*;
use vstd::utf8::encode_utf8;

use crate::catalog::dag::{DagOperationBindingState, OperationBinding};
use crate::catalog::dag_bind::{bound, with_tombstone};
use crate::catalog::dag_reach::reaches;
use crate::catalog::graph::Graph;
use crate::catalog::ids::{
    CollectionId, CommitId, CommitReceipt, FileId, NodeId, OperationId, PrincipalId, VersionId,
};
use crate::catalog::names::{fingerprint_of, name_of};
use crate::catalog::types::{
    Candidate, Capability, CatalogError, CatalogHandoff, CollectionView, DagBindingState,
    FenceToken, FileVersion, FileView, Head, IndexState, IntentState, IntentView, MemberKey,
    OperationKind, OperationRecord, OperationResult, Principal, PrincipalState, PublicIntentView,
};

verus! {

/// What the catalog holds.
#[verifier::ext_equal]
pub struct CatalogView {
    pub next_principal: u64,
    pub next_collection: u64,
    pub next_file: u64,
    pub next_version: u64,
    pub next_operation: u64,
    pub coordinator_epoch: u64,
    pub next_fence_nonce: u64,
    pub principals: Map<PrincipalId, Principal>,
    pub collections: Map<CollectionId, CollectionView>,
    pub files: Map<FileId, FileView>,
    pub versions: Map<FileId, Seq<FileVersion>>,
    pub intents: Map<OperationId, IntentView>,
    pub operations: Map<OperationId, OperationRecord>,
    pub handoffs: Map<OperationId, CatalogHandoff>,
    pub memberships: Map<MemberKey, Capability>,
    pub retention_roots: Set<CommitId>,
    pub reader_pins: Map<CommitId, u64>,
}

/// What a request answers, and the catalog after it.
pub type Outcome<T> = (Result<T, CatalogError>, CatalogView);

/// `Ok` where there is nothing against it.
pub open spec fn unless(problem: Option<CatalogError>) -> Result<(), CatalogError> {
    match problem {
        Some(error) => Err(error),
        None => Ok(()),
    }
}

/// The catalog that was just made: its first coordinator has epoch one.
pub open spec fn fresh() -> CatalogView {
    CatalogView {
        next_principal: 0,
        next_collection: 0,
        next_file: 0,
        next_version: 0,
        next_operation: 0,
        coordinator_epoch: 1,
        next_fence_nonce: 0,
        principals: Map::empty(),
        collections: Map::empty(),
        files: Map::empty(),
        versions: Map::empty(),
        intents: Map::empty(),
        operations: Map::empty(),
        handoffs: Map::empty(),
        memberships: Map::empty(),
        retention_roots: Set::empty(),
        reader_pins: Map::empty(),
    }
}

/// Why an actor may not act on what an owner has, if it may not.
pub open spec fn auth_problem(
    v: CatalogView,
    actor: PrincipalId,
    owner: PrincipalId,
    required: Capability,
) -> Option<CatalogError> {
    if !v.principals.dom().contains(actor) {
        Some(CatalogError::NotFound)
    } else if v.principals[actor].state is Disabled {
        Some(CatalogError::PrincipalDisabled)
    } else if !v.principals.dom().contains(owner) {
        Some(CatalogError::NotFound)
    } else if v.principals[owner].state is Disabled {
        Some(CatalogError::PrincipalDisabled)
    } else if actor == owner || (v.principals[owner].kind is Organization && holds(
        v,
        owner,
        actor,
        required,
    )) {
        None
    } else {
        Some(CatalogError::PermissionDenied)
    }
}

/// Whether a member's capability in an organization is enough.
pub open spec fn holds(
    v: CatalogView,
    organization: PrincipalId,
    member: PrincipalId,
    required: Capability,
) -> bool {
    let key = MemberKey { organization, member };
    v.memberships.dom().contains(key) && v.memberships[key].covers(required)
}

/// Why an actor may not act on a file, if it may not.
pub open spec fn file_problem(
    v: CatalogView,
    actor: PrincipalId,
    file: FileId,
    required: Capability,
) -> Option<CatalogError> {
    if !v.files.dom().contains(file) || !v.collections.dom().contains(v.files[file].collection) {
        Some(CatalogError::NotFound)
    } else {
        auth_problem(v, actor, v.collections[v.files[file].collection].owner, required)
    }
}

/// Why an actor may not drive an intent, if it may not: only the actor who began it
/// may, and only while it may write the file.
pub open spec fn actor_problem(
    v: CatalogView,
    actor: PrincipalId,
    intent: IntentView,
) -> Option<CatalogError> {
    if actor != intent.actor {
        Some(CatalogError::PermissionDenied)
    } else {
        file_problem(v, actor, intent.file, Capability::Write)
    }
}

/// Whether a token is the current claim on an intent.
pub open spec fn fenced(v: CatalogView, intent: IntentView, fence: FenceToken) -> bool {
    intent.owner_fence == Some(fence) && fence.epoch() == v.coordinator_epoch
}

/// Why the token does not let its holder drive the intent, if it does not.
pub open spec fn fence_problem(v: CatalogView, intent: IntentView, fence: FenceToken) -> Option<
    CatalogError,
> {
    if fenced(v, intent, fence) {
        None
    } else {
        Some(CatalogError::FenceLost)
    }
}

/// The catalog with the authorization epochs of two principals moved on.
pub open spec fn bumped(v: CatalogView, first: PrincipalId, second: PrincipalId) -> CatalogView {
    let one = v.principals.insert(first, next_epoch(v.principals[first]));
    CatalogView {
        principals: if first == second {
            one
        } else {
            one.insert(second, next_epoch(v.principals[second]))
        },
        ..v
    }
}

pub open spec fn next_epoch(principal: Principal) -> Principal {
    Principal { authz_epoch: (principal.authz_epoch + 1) as u64, ..principal }
}

/// Why the epochs of the two principals cannot move on, if they cannot.
pub open spec fn bump_problem(v: CatalogView, first: PrincipalId, second: PrincipalId) -> Option<
    CatalogError,
> {
    if !v.principals.dom().contains(first) {
        Some(CatalogError::NotFound)
    } else if v.principals[first].authz_epoch == u64::MAX {
        Some(CatalogError::EpochExhausted)
    } else if !v.principals.dom().contains(second) {
        Some(CatalogError::NotFound)
    } else if v.principals[second].authz_epoch == u64::MAX {
        Some(CatalogError::EpochExhausted)
    } else {
        None
    }
}

/// Why a membership cannot be changed, if it cannot. Nobody changes its own.
pub open spec fn membership_problem(
    v: CatalogView,
    actor: PrincipalId,
    organization: PrincipalId,
    member: PrincipalId,
) -> Option<CatalogError> {
    match auth_problem(v, actor, organization, Capability::ManageMembers) {
        Some(error) => Some(error),
        None => if v.principals[organization].kind is User {
            Some(CatalogError::InvalidOrganization)
        } else if actor == member {
            Some(CatalogError::PermissionDenied)
        } else if !v.principals.dom().contains(member) {
            Some(CatalogError::NotFound)
        } else {
            bump_problem(v, organization, member)
        },
    }
}

/// What setting the state of a principal does.
pub open spec fn state_outcome(v: CatalogView, id: PrincipalId, state: PrincipalState) -> Outcome<
    (),
> {
    match bump_problem(v, id, id) {
        Some(error) => (Err(error), v),
        None => (
            Ok(()),
            CatalogView {
                principals: v.principals.insert(
                    id,
                    Principal { state, ..next_epoch(v.principals[id]) },
                ),
                ..v
            },
        ),
    }
}

/// The record of a request that was just taken in.
pub open spec fn opened(
    op: OperationId,
    actor: PrincipalId,
    kind: OperationKind,
    fingerprint: [u8; 32],
) -> OperationRecord {
    OperationRecord {
        operation_id: op,
        actor,
        kind,
        request_fingerprint: fingerprint,
        result: None,
        error: None,
    }
}

/// Whether a record is of the same request.
pub open spec fn same_request(
    record: OperationRecord,
    actor: PrincipalId,
    kind: OperationKind,
    fingerprint: [u8; 32],
) -> bool {
    record.kind == kind && record.actor == actor && record.request_fingerprint == fingerprint
}

/// What is known of a request: its result if it has ended, `None` if it is to be
/// carried out.
pub open spec fn reserve_outcome(
    v: CatalogView,
    op: OperationId,
    actor: PrincipalId,
    kind: OperationKind,
    fingerprint: [u8; 32],
) -> Outcome<Option<OperationResult>> {
    if v.operations.dom().contains(op) {
        let record = v.operations[op];
        if !same_request(record, actor, kind, fingerprint) {
            (Err(CatalogError::OperationConflict), v)
        } else {
            match record.error {
                Some(error) => (Err(error), v),
                None => (Ok(record.result), v),
            }
        }
    } else {
        (
            Ok(None),
            CatalogView {
                operations: v.operations.insert(op, opened(op, actor, kind, fingerprint)),
                ..v
            },
        )
    }
}

/// The catalog with the end of a request recorded.
pub open spec fn completed(
    v: CatalogView,
    op: OperationId,
    end: Result<OperationResult, CatalogError>,
) -> CatalogView {
    if v.operations.dom().contains(op) {
        let record = match end {
            Ok(result) => OperationRecord { result: Some(result), ..v.operations[op] },
            Err(error) => OperationRecord { error: Some(error), ..v.operations[op] },
        };
        CatalogView { operations: v.operations.insert(op, record), ..v }
    } else {
        v
    }
}

/// Whether the owner has a collection of that name.
pub open spec fn collection_named(v: CatalogView, owner: PrincipalId, name: Seq<char>) -> bool {
    exists|id: CollectionId| #[trigger]
        v.collections.dom().contains(id) && v.collections[id].owner == owner
            && v.collections[id].name == name
}

/// Whether the collection has a file of that name.
pub open spec fn file_named(v: CatalogView, collection: CollectionId, name: Seq<char>) -> bool {
    exists|id: FileId| #[trigger]
        v.files.dom().contains(id) && v.files[id].collection == collection && v.files[id].name
            == name
}

/// The fingerprint of a request to make a collection.
pub open spec fn collection_request(actor: PrincipalId, owner: PrincipalId, name: Seq<char>) -> [u8;
    32] {
    fingerprint_of(
        "cairn/catalog/create-collection/v1".spec_bytes(),
        seq![actor.0, owner.0],
        seq![encode_utf8(name)],
    )
}

/// The fingerprint of a request to make a file.
pub open spec fn file_request(
    actor: PrincipalId,
    collection: CollectionId,
    name: Seq<char>,
) -> [u8; 32] {
    fingerprint_of(
        "cairn/catalog/create-file/v1".spec_bytes(),
        seq![actor.0, collection.0],
        seq![encode_utf8(name)],
    )
}

/// The number of a version in a fingerprint.
pub open spec fn version_number(version: Option<VersionId>) -> u64 {
    match version {
        Some(version) => version.0,
        None => u64::MAX,
    }
}

/// The fingerprint of a request to publish.
pub open spec fn publish_request(actor: PrincipalId, file: FileId, expected: Head) -> [u8; 32] {
    fingerprint_of(
        "cairn/catalog/publish/v1".spec_bytes(),
        seq![actor.0, file.0, version_number(expected.version_id), expected.generation],
        Seq::empty(),
    )
}

/// Making a collection, once the request is taken in.
pub open spec fn add_collection(
    v: CatalogView,
    actor: PrincipalId,
    owner: PrincipalId,
    text: Seq<char>,
) -> Outcome<CollectionId> {
    match name_of(text) {
        Err(error) => (Err(error), v),
        Ok(name) => match auth_problem(v, actor, owner, Capability::ManageMembers) {
            Some(error) => (Err(error), v),
            None => if collection_named(v, owner, name) {
                (Err(CatalogError::NameTaken), v)
            } else if v.next_collection == u64::MAX {
                (Err(CatalogError::IdExhausted), v)
            } else {
                let id = CollectionId(v.next_collection);
                (
                    Ok(id),
                    CatalogView {
                        next_collection: (v.next_collection + 1) as u64,
                        collections: v.collections.insert(id, CollectionView { id, owner, name }),
                        ..v
                    },
                )
            },
        },
    }
}

/// Making a file, once the request is taken in.
pub open spec fn add_file(
    v: CatalogView,
    actor: PrincipalId,
    collection: CollectionId,
    text: Seq<char>,
) -> Outcome<FileId> {
    match name_of(text) {
        Err(error) => (Err(error), v),
        Ok(name) => if !v.collections.dom().contains(collection) {
            (Err(CatalogError::NotFound), v)
        } else {
            match auth_problem(v, actor, v.collections[collection].owner, Capability::Write) {
                Some(error) => (Err(error), v),
                None => if file_named(v, collection, name) {
                    (Err(CatalogError::NameTaken), v)
                } else if v.next_file == u64::MAX {
                    (Err(CatalogError::IdExhausted), v)
                } else {
                    let id = FileId(v.next_file);
                    let head = Head { version_id: None, generation: 0 };
                    (
                        Ok(id),
                        CatalogView {
                            next_file: (v.next_file + 1) as u64,
                            files: v.files.insert(id, FileView { id, collection, name, head }),
                            ..v
                        },
                    )
                },
            }
        },
    }
}

/// What a request to make a collection does.
pub open spec fn create_collection_outcome(
    v: CatalogView,
    actor: PrincipalId,
    owner: PrincipalId,
    text: Seq<char>,
    op: OperationId,
) -> Outcome<CollectionId> {
    let taken = reserve_outcome(
        v,
        op,
        actor,
        OperationKind::CreateCollection,
        collection_request(actor, owner, text),
    );
    match taken.0 {
        Err(error) => (Err(error), taken.1),
        Ok(Some(OperationResult::Collection(id))) => (Ok(id), taken.1),
        Ok(Some(_)) => (Err(CatalogError::OperationConflict), taken.1),
        Ok(None) => {
            let made = add_collection(taken.1, actor, owner, text);
            let end = match made.0 {
                Ok(id) => Ok(OperationResult::Collection(id)),
                Err(error) => Err(error),
            };
            (made.0, completed(made.1, op, end))
        },
    }
}

/// What a request to make a file does.
pub open spec fn create_file_outcome(
    v: CatalogView,
    actor: PrincipalId,
    collection: CollectionId,
    text: Seq<char>,
    op: OperationId,
) -> Outcome<FileId> {
    let taken = reserve_outcome(
        v,
        op,
        actor,
        OperationKind::CreateFile,
        file_request(actor, collection, text),
    );
    match taken.0 {
        Err(error) => (Err(error), taken.1),
        Ok(Some(OperationResult::File(id))) => (Ok(id), taken.1),
        Ok(Some(_)) => (Err(CatalogError::OperationConflict), taken.1),
        Ok(None) => {
            let made = add_file(taken.1, actor, collection, text);
            let end = match made.0 {
                Ok(id) => Ok(OperationResult::File(id)),
                Err(error) => Err(error),
            };
            (made.0, completed(made.1, op, end))
        },
    }
}

/// Why a record does not vouch for a request, if it does not.
pub open spec fn identity_problem(
    v: CatalogView,
    op: OperationId,
    actor: PrincipalId,
    kind: OperationKind,
    fingerprint: [u8; 32],
) -> Option<CatalogError> {
    if !v.operations.dom().contains(op) {
        Some(CatalogError::NotFound)
    } else if v.operations[op].operation_id == op && same_request(
        v.operations[op],
        actor,
        kind,
        fingerprint,
    ) {
        None
    } else {
        Some(CatalogError::OperationConflict)
    }
}

/// Why an ended intent lacks its durable end, if it does.
pub open spec fn ended_problem(v: CatalogView, op: OperationId) -> Option<CatalogError> {
    if !v.operations.dom().contains(op) {
        Some(CatalogError::NotFound)
    } else if v.operations[op].result is Some || v.operations[op].error is Some {
        None
    } else {
        Some(CatalogError::InvalidIntent)
    }
}

/// The answer to a request to begin a publication whose identifier is in use.
pub open spec fn begin_again(
    v: CatalogView,
    actor: PrincipalId,
    file: FileId,
    op: OperationId,
    expected: Head,
    fence: Option<FenceToken>,
) -> Result<PublicIntentView, CatalogError> {
    let fingerprint = publish_request(actor, file, expected);
    if !v.intents.dom().contains(op) {
        let record = v.operations[op];
        if !same_request(record, actor, OperationKind::Publish, fingerprint) {
            Err(CatalogError::OperationConflict)
        } else {
            match record.error {
                Some(error) => Err(error),
                None => Err(CatalogError::InvalidIntent),
            }
        }
    } else {
        let intent = v.intents[op];
        match actor_problem(v, actor, intent) {
            Some(error) => Err(error),
            None => match identity_problem(v, op, actor, OperationKind::Publish, fingerprint) {
                Some(error) => Err(error),
                None => if intent.state.ended() {
                    match ended_problem(v, op) {
                        Some(error) => Err(error),
                        None => Ok(intent.public()),
                    }
                } else {
                    match fence {
                        Some(fence) if fenced(v, intent, fence) => Ok(intent.public()),
                        _ => Err(CatalogError::FenceLost),
                    }
                },
            },
        }
    }
}

/// Beginning a publication, once the request is taken in.
pub open spec fn add_intent(
    v: CatalogView,
    actor: PrincipalId,
    file: FileId,
    op: OperationId,
    expected: Head,
) -> Outcome<PublicIntentView> {
    match file_problem(v, actor, file, Capability::Write) {
        Some(error) => (Err(error), v),
        None => if v.files[file].head != expected {
            (Err(CatalogError::HeadConflict), v)
        } else if v.next_version == u64::MAX {
            (Err(CatalogError::IdExhausted), v)
        } else {
            let w = CatalogView { next_version: (v.next_version + 1) as u64, ..v };
            if expected.generation == u64::MAX {
                (Err(CatalogError::GenerationExhausted), w)
            } else if v.next_fence_nonce == u64::MAX {
                (Err(CatalogError::IdExhausted), w)
            } else {
                let intent = IntentView {
                    operation_id: op,
                    actor,
                    file,
                    state: IntentState::Preparing,
                    authz_epoch: v.principals[actor].authz_epoch,
                    expected_head: expected,
                    base: match expected.version_id {
                        Some(_) => Some(expected),
                        None => None,
                    },
                    version_id: VersionId(v.next_version),
                    candidate: None,
                    abort_reason: None,
                    owner_fence: Some(FenceToken::of(v.coordinator_epoch, v.next_fence_nonce)),
                    pinned: true,
                };
                (
                    Ok(intent.public()),
                    CatalogView {
                        next_fence_nonce: (v.next_fence_nonce + 1) as u64,
                        intents: v.intents.insert(op, intent),
                        ..w
                    },
                )
            }
        },
    }
}

/// What a request to begin a publication does.
pub open spec fn begin_publish_outcome(
    v: CatalogView,
    actor: PrincipalId,
    file: FileId,
    op: OperationId,
    expected: Head,
    fence: Option<FenceToken>,
) -> Outcome<PublicIntentView> {
    if v.operations.dom().contains(op) {
        (begin_again(v, actor, file, op, expected, fence), v)
    } else {
        let record = opened(
            op,
            actor,
            OperationKind::Publish,
            publish_request(actor, file, expected),
        );
        let taken = CatalogView { operations: v.operations.insert(op, record), ..v };
        let begun = add_intent(taken, actor, file, op, expected);
        match begun.0 {
            Ok(_) => begun,
            Err(error) => (begun.0, completed(begun.1, op, Err(error))),
        }
    }
}

/// The handoff of a receipt that the catalog has taken in and not yet attached.
pub open spec fn handed_over(receipt: CommitReceipt) -> CatalogHandoff {
    CatalogHandoff {
        receipt,
        state: IndexState::Active,
        has_roots: true,
        binding: DagBindingState::ReceiptCommitted,
    }
}

/// Taking in a receipt that is known to be durable or not.
pub open spec fn register_outcome(
    v: CatalogView,
    actor: PrincipalId,
    op: OperationId,
    fence: FenceToken,
    receipt: CommitReceipt,
    durable: bool,
) -> Outcome<CommitReceipt> {
    if !v.intents.dom().contains(op) {
        (Err(CatalogError::NotFound), v)
    } else {
        let intent = v.intents[op];
        match actor_problem(v, actor, intent) {
            Some(error) => (Err(error), v),
            None => if !fenced(v, intent, fence) {
                (Err(CatalogError::FenceLost), v)
            } else if intent.state.ended() {
                (Err(CatalogError::InvalidIntent), v)
            } else if receipt.operation_id != op {
                (Err(CatalogError::OperationConflict), v)
            } else if !durable {
                (Err(CatalogError::ReceiptNotDurable), v)
            } else if v.handoffs.dom().contains(op) {
                if v.handoffs[op].receipt != receipt {
                    (Err(CatalogError::OperationConflict), v)
                } else {
                    (Ok(receipt), v)
                }
            } else {
                (
                    Ok(receipt),
                    CatalogView { handoffs: v.handoffs.insert(op, handed_over(receipt)), ..v },
                )
            },
        }
    }
}

/// The first of the versions with the given identifier.
pub open spec fn version_named(versions: Seq<FileVersion>, id: VersionId) -> Option<FileVersion>
    decreases versions.len(),
{
    if versions.len() == 0 {
        None
    } else if versions[0].id == id {
        Some(versions[0])
    } else {
        version_named(versions.drop_first(), id)
    }
}

/// The commit of a version of a file.
pub open spec fn commit_named(v: CatalogView, file: FileId, version: Option<VersionId>) -> Option<
    CommitId,
> {
    match version {
        Some(id) => if v.versions.dom().contains(file) {
            match version_named(v.versions[file], id) {
                Some(version) => Some(version.commit_id),
                None => None,
            }
        } else {
            None
        },
        None => None,
    }
}

/// The commit that a candidate of the intent must have as its parent.
pub open spec fn parent_commit(v: CatalogView, intent: IntentView) -> Option<CommitId> {
    match intent.base {
        Some(head) => commit_named(v, intent.file, head.version_id),
        None => None,
    }
}

/// The catalog with a tombstone on the handoff of an operation.
pub open spec fn tombstoned(v: CatalogView, op: OperationId) -> CatalogView {
    if v.handoffs.dom().contains(op) {
        CatalogView {
            handoffs: v.handoffs.insert(
                op,
                CatalogHandoff {
                    state: IndexState::Tombstoned,
                    has_roots: false,
                    ..v.handoffs[op]
                },
            ),
            ..v
        }
    } else {
        v
    }
}

/// The catalog with an intent given up.
pub open spec fn given_up(
    v: CatalogView,
    op: OperationId,
    reason: Seq<char>,
    error: Option<CatalogError>,
) -> CatalogView {
    let intent = IntentView {
        state: IntentState::Aborted,
        abort_reason: Some(reason),
        owner_fence: None,
        pinned: false,
        ..v.intents[op]
    };
    let w = tombstoned(CatalogView { intents: v.intents.insert(op, intent), ..v }, op);
    completed(
        w,
        op,
        match error {
            Some(error) => Err(error),
            None => Ok(OperationResult::Aborted),
        },
    )
}

/// Giving up an intent on the strength of a claim.
pub open spec fn give_up_outcome(
    v: CatalogView,
    op: OperationId,
    fence: FenceToken,
    reason: Seq<char>,
    error: Option<CatalogError>,
) -> Outcome<()> {
    if !v.intents.dom().contains(op) {
        (Err(CatalogError::NotFound), v)
    } else if v.intents[op].state.ended() {
        (Ok(()), v)
    } else if !fenced(v, v.intents[op], fence) {
        (Err(CatalogError::FenceLost), v)
    } else {
        (Ok(()), given_up(v, op, reason, error))
    }
}

/// What attaching the receipt to the intent does.
pub open spec fn bind_outcome(
    v: CatalogView,
    actor: PrincipalId,
    op: OperationId,
    fence: FenceToken,
) -> Outcome<PublicIntentView> {
    if !v.intents.dom().contains(op) {
        (Err(CatalogError::NotFound), v)
    } else {
        let intent = v.intents[op];
        match actor_problem(v, actor, intent) {
            Some(error) => (Err(error), v),
            None => if !fenced(v, intent, fence) {
                (Err(CatalogError::FenceLost), v)
            } else if intent.state.ended() {
                (Ok(intent.public()), v)
            } else if !v.handoffs.dom().contains(op) {
                (Err(CatalogError::NotFound), v)
            } else if v.handoffs[op].receipt.parent != parent_commit(v, intent) {
                (
                    Err(CatalogError::CandidateMismatch),
                    given_up(
                        v,
                        op,
                        "candidate parent mismatch"@,
                        Some(CatalogError::CandidateMismatch),
                    ),
                )
            } else {
                let bound_intent = IntentView {
                    candidate: Some(
                        Candidate {
                            version_id: intent.version_id,
                            receipt: v.handoffs[op].receipt,
                        },
                    ),
                    state: IntentState::CommitDurable,
                    ..intent
                };
                (
                    Ok(bound_intent.public()),
                    CatalogView {
                        intents: v.intents.insert(op, bound_intent),
                        handoffs: v.handoffs.insert(
                            op,
                            CatalogHandoff { binding: DagBindingState::Bound, ..v.handoffs[op] },
                        ),
                        ..v
                    },
                )
            },
        }
    }
}

/// The stored end of a publication.
pub open spec fn stored_end(v: CatalogView, op: OperationId) -> Result<FileVersion, CatalogError> {
    if !v.operations.dom().contains(op) {
        Err(CatalogError::NotFound)
    } else {
        match (v.operations[op].result, v.operations[op].error) {
            (Some(OperationResult::Version(version)), None) => Ok(version),
            (_, Some(error)) => Err(error),
            _ => Err(CatalogError::InvalidIntent),
        }
    }
}

/// Whether the commit is a published version of the file.
pub open spec fn published(v: CatalogView, file: FileId, commit: CommitId) -> bool {
    exists|of: FileId, k: int|
        v.versions.dom().contains(of) && 0 <= k < v.versions[of].len() && (#[trigger] v.versions[of][k]).file
            == file && v.versions[of][k].commit_id == commit
}

/// Why a request to publish cannot be carried out now, if it cannot. It leaves the
/// catalog as it is.
pub open spec fn publish_refusal(
    v: CatalogView,
    intent: IntentView,
    op: OperationId,
    fence: Option<FenceToken>,
) -> Option<CatalogError> {
    match fence {
        Some(fence) if fenced(v, intent, fence) => match intent.candidate {
            None => Some(CatalogError::InvalidIntent),
            Some(candidate) => if v.handoffs.dom().contains(op) && v.handoffs[op].binding is Bound
                && v.handoffs[op].receipt == candidate.receipt {
                None
            } else {
                Some(CatalogError::ReceiptNotDurable)
            },
        },
        _ => Some(CatalogError::FenceLost),
    }
}

/// Why an intent that is ready to be published has to be given up instead, if it has
/// to: the reason recorded in the intent, and the error.
pub open spec fn publish_conflict(v: CatalogView, intent: IntentView, receipt: CommitReceipt) -> Option<
    (Seq<char>, CatalogError),
> {
    if v.principals[intent.actor].authz_epoch != intent.authz_epoch {
        Some(("authorization changed"@, CatalogError::AuthzEpochChanged))
    } else if v.files[intent.file].head != intent.expected_head {
        Some(("head CAS failed"@, CatalogError::HeadConflict))
    } else if published(v, intent.file, receipt.commit_id) {
        Some(("duplicate Commit"@, CatalogError::DuplicateCommit))
    } else {
        None
    }
}

/// The version that an intent publishes.
pub open spec fn version_of(intent: IntentView, candidate: Candidate) -> FileVersion {
    FileVersion {
        id: candidate.version_id,
        file: intent.file,
        generation: (intent.expected_head.generation + 1) as u64,
        commit_id: candidate.receipt.commit_id,
        parent_version_id: intent.expected_head.version_id,
        size: candidate.receipt.snapshot_size,
        digest: candidate.receipt.snapshot_digest,
    }
}

/// The versions of a file: none where none was published.
pub open spec fn versions_of(v: CatalogView, file: FileId) -> Seq<FileVersion> {
    if v.versions.dom().contains(file) {
        v.versions[file]
    } else {
        Seq::empty()
    }
}

/// The catalog after an intent's version was published.
pub open spec fn after_publish(v: CatalogView, op: OperationId, version: FileVersion) -> CatalogView {
    let intent = v.intents[op];
    let head = Head { version_id: Some(version.id), generation: version.generation };
    let w = CatalogView {
        versions: v.versions.insert(
            intent.file,
            versions_of(v, intent.file).push(version),
        ),
        files: v.files.insert(intent.file, FileView { head, ..v.files[intent.file] }),
        intents: v.intents.insert(
            op,
            IntentView {
                state: IntentState::Published,
                pinned: false,
                owner_fence: None,
                ..intent
            },
        ),
        ..v
    };
    completed(tombstoned(w, op), op, Ok(OperationResult::Version(version)))
}

/// What a request to publish does.
pub open spec fn publish_outcome(
    v: CatalogView,
    actor: PrincipalId,
    op: OperationId,
    fence: Option<FenceToken>,
) -> Outcome<FileVersion> {
    if !v.intents.dom().contains(op) {
        (Err(CatalogError::NotFound), v)
    } else {
        let intent = v.intents[op];
        let request = publish_request(intent.actor, intent.file, intent.expected_head);
        match actor_problem(v, actor, intent) {
            Some(error) => (Err(error), v),
            None => match identity_problem(v, op, actor, OperationKind::Publish, request) {
                Some(error) => (Err(error), v),
                None => if intent.state.ended() {
                    (stored_end(v, op), v)
                } else {
                    match publish_refusal(v, intent, op, fence) {
                        Some(error) => (Err(error), v),
                        None => publish_ready(v, op, intent, intent.candidate->0),
                    }
                },
            },
        }
    }
}

/// Publishing an intent whose claim and receipt are in order.
pub open spec fn publish_ready(
    v: CatalogView,
    op: OperationId,
    intent: IntentView,
    candidate: Candidate,
) -> Outcome<FileVersion> {
    match publish_conflict(v, intent, candidate.receipt) {
        Some((reason, error)) => (Err(error), given_up(v, op, reason, Some(error))),
        None => if intent.expected_head.generation == u64::MAX {
            (Err(CatalogError::GenerationExhausted), v)
        } else {
            let version = version_of(intent, candidate);
            (Ok(version), after_publish(v, op, version))
        },
    }
}

/// What a request to give an intent up does.
pub open spec fn abort_outcome(
    v: CatalogView,
    op: OperationId,
    actor: PrincipalId,
    fence: Option<FenceToken>,
) -> Outcome<PublicIntentView> {
    if !v.intents.dom().contains(op) {
        (Err(CatalogError::NotFound), v)
    } else {
        let intent = v.intents[op];
        let request = publish_request(intent.actor, intent.file, intent.expected_head);
        match actor_problem(v, actor, intent) {
            Some(error) => (Err(error), v),
            None => match identity_problem(v, op, actor, OperationKind::Publish, request) {
                Some(error) => (Err(error), v),
                None => if intent.state.ended() {
                    match ended_problem(v, op) {
                        Some(error) => (Err(error), v),
                        None => (Ok(intent.public()), v),
                    }
                } else {
                    match fence {
                        Some(fence) if fenced(v, intent, fence) => {
                            let w = given_up(v, op, "caller abort"@, None);
                            (Ok(w.intents[op].public()), w)
                        },
                        _ => (Err(CatalogError::FenceLost), v),
                    }
                },
            },
        }
    }
}

/// What recovery's giving up of an intent does.
pub open spec fn recovery_abort_outcome(
    v: CatalogView,
    op: OperationId,
    fence: FenceToken,
    reason: Seq<char>,
) -> Outcome<PublicIntentView> {
    let ended = give_up_outcome(v, op, fence, reason, Some(CatalogError::InvalidIntent));
    match ended.0 {
        Err(error) => (Err(error), ended.1),
        Ok(()) => (Ok(ended.1.intents[op].public()), ended.1),
    }
}

/// What a recovery coordinator's claim on an intent does. An intent that is claimed
/// already stays with its coordinator.
pub open spec fn claim_outcome(v: CatalogView, op: OperationId) -> Outcome<FenceToken> {
    if !v.intents.dom().contains(op) {
        (Err(CatalogError::NotFound), v)
    } else if v.intents[op].state.ended() {
        (Err(CatalogError::InvalidIntent), v)
    } else if v.intents[op].owner_fence is Some {
        (Err(CatalogError::FenceLost), v)
    } else if v.next_fence_nonce == u64::MAX {
        (Err(CatalogError::IdExhausted), v)
    } else {
        let fence = FenceToken::of(v.coordinator_epoch, v.next_fence_nonce);
        (
            Ok(fence),
            CatalogView {
                next_fence_nonce: (v.next_fence_nonce + 1) as u64,
                intents: v.intents.insert(
                    op,
                    IntentView { owner_fence: Some(fence), ..v.intents[op] },
                ),
                ..v
            },
        )
    }
}

/// The reason recorded when recovery gives an intent up.
pub open spec fn recovery_reason(error: CatalogError) -> Seq<char> {
    match error {
        CatalogError::AuthzEpochChanged => "authorization changed during recovery"@,
        CatalogError::PermissionDenied => "authorization denied during recovery"@,
        CatalogError::PrincipalDisabled => "authorization denied during recovery"@,
        _ => "recovery could not safely publish"@,
    }
}

/// Carrying a claimed intent to its publication with the receipt that the graph
/// holds for it.
pub open spec fn resume_outcome(
    v: CatalogView,
    op: OperationId,
    fence: FenceToken,
    receipt: CommitReceipt,
) -> Outcome<()> {
    let actor = v.intents[op].actor;
    match actor_problem(v, actor, v.intents[op]) {
        Some(error) => (Err(error), v),
        None => if v.handoffs.dom().contains(op) && v.handoffs[op].receipt != receipt {
            (Err(CatalogError::OperationConflict), v)
        } else {
            let w = if v.handoffs.dom().contains(op) {
                v
            } else {
                CatalogView { handoffs: v.handoffs.insert(op, handed_over(receipt)), ..v }
            };
            let attached = bind_outcome(w, actor, op, fence);
            match attached.0 {
                Err(error) => (Err(error), attached.1),
                Ok(_) => {
                    let end = publish_outcome(attached.1, actor, op, Some(fence));
                    match end.0 {
                        Err(error) => (Err(error), end.1),
                        Ok(_) => (Ok(()), end.1),
                    }
                },
            }
        },
    }
}

/// What the recovery of an intent does, given the receipt that the graph actively
/// holds for its operation.
pub open spec fn recover_outcome(
    v: CatalogView,
    binding: Option<CommitReceipt>,
    op: OperationId,
) -> Outcome<PublicIntentView> {
    if !v.intents.dom().contains(op) {
        (Err(CatalogError::NotFound), v)
    } else if v.intents[op].state.ended() {
        (Ok(v.intents[op].public()), v)
    } else {
        let claim = claim_outcome(v, op);
        match claim.0 {
            Err(error) => (Err(error), claim.1),
            Ok(fence) => match binding {
                None => {
                    let w = given_up(
                        claim.1,
                        op,
                        "DAG operation binding missing during recovery"@,
                        Some(CatalogError::InvalidIntent),
                    );
                    (Ok(w.intents[op].public()), w)
                },
                Some(receipt) => {
                    let end = resume_outcome(claim.1, op, fence, receipt);
                    match end.0 {
                        Ok(()) => (Ok(end.1.intents[op].public()), end.1),
                        Err(error) => (
                            Err(error),
                            give_up_outcome(
                                end.1,
                                op,
                                fence,
                                recovery_reason(error),
                                Some(error),
                            ).1,
                        ),
                    }
                },
            },
        }
    }
}

/// The bindings of a graph.
pub type Bindings = Map<OperationId, OperationBinding>;

/// The receipt of an operation whose binding in the graph is active.
pub open spec fn active_receipt(graph: Graph, bindings: Bindings, op: OperationId) -> Option<
    CommitReceipt,
> {
    match bound(graph, bindings, op) {
        Some((receipt, DagOperationBindingState::Active)) => Some(receipt),
        _ => None,
    }
}

/// Whether the receipt is that of a tombstoned binding of the graph.
pub open spec fn released(graph: Graph, bindings: Bindings, receipt: CommitReceipt) -> bool {
    bound(graph, bindings, receipt.operation_id) == Some(
        (receipt, DagOperationBindingState::Tombstoned),
    )
}

/// Why the catalog does not vouch for the end of an operation, if it does not.
pub open spec fn permit_problem(v: CatalogView, op: OperationId) -> Option<CatalogError> {
    if !v.intents.dom().contains(op) || !v.handoffs.dom().contains(op) {
        Some(CatalogError::NotFound)
    } else if v.intents[op].state.ended() && v.handoffs[op].state is Tombstoned
        && v.handoffs[op].binding is Bound {
        None
    } else {
        Some(CatalogError::InvalidIntent)
    }
}

/// Recovering the operations one after the other. It stops at the first whose
/// recovery fails and leaves it open.
pub open spec fn recover_all(
    v: CatalogView,
    graph: Graph,
    bindings: Bindings,
    ops: Seq<OperationId>,
) -> Outcome<()>
    decreases ops.len(),
{
    if ops.len() == 0 {
        (Ok(()), v)
    } else {
        let op = ops[0];
        if v.intents.dom().contains(op) && !v.intents[op].state.ended() {
            let step = recover_outcome(v, active_receipt(graph, bindings, op), op);
            match step.0 {
                Err(error) if !step.1.intents[op].state.ended() => (Err(error), step.1),
                _ => recover_all(step.1, graph, bindings, ops.drop_first()),
            }
        } else {
            recover_all(v, graph, bindings, ops.drop_first())
        }
    }
}

/// What releasing the binding of an operation does to the bindings. The binding of
/// an operation that has not ended is left alone.
pub open spec fn release_one(
    v: CatalogView,
    graph: Graph,
    bindings: Bindings,
    op: OperationId,
) -> (Result<(), CatalogError>, Bindings) {
    if !v.intents.dom().contains(op) || !v.intents[op].state.ended() {
        (Ok(()), bindings)
    } else if !v.handoffs.dom().contains(op) {
        if v.intents[op].state is Aborted {
            (Ok(()), bindings)
        } else {
            (Err(CatalogError::InvalidIntent), bindings)
        }
    } else {
        match active_receipt(graph, bindings, op) {
            Some(receipt) => match permit_problem(v, op) {
                Some(error) => (Err(error), bindings),
                None => if v.handoffs[op].receipt == receipt {
                    (Ok(()), with_tombstone(bindings, op))
                } else {
                    (Err(CatalogError::InvalidIntent), bindings)
                },
            },
            None => if released(graph, bindings, v.handoffs[op].receipt) {
                (Ok(()), bindings)
            } else {
                (Err(CatalogError::InvalidIntent), bindings)
            },
        }
    }
}

/// Releasing the bindings of ended operations one after the other.
pub open spec fn release_all(
    v: CatalogView,
    graph: Graph,
    bindings: Bindings,
    ops: Seq<OperationId>,
) -> (Result<(), CatalogError>, Bindings)
    decreases ops.len(),
{
    if ops.len() == 0 {
        (Ok(()), bindings)
    } else {
        let step = release_one(v, graph, bindings, ops[0]);
        match step.0 {
            Err(error) => (Err(error), step.1),
            Ok(()) => release_all(v, graph, step.1, ops.drop_first()),
        }
    }
}

/// Whether the list holds each operation with an intent once, and no other.
pub open spec fn lists_intents(v: CatalogView, ops: Seq<OperationId>) -> bool {
    &&& ops.no_duplicates()
    &&& forall|op: OperationId| #[trigger] ops.contains(op) == v.intents.dom().contains(op)
}

/// Whether the outcome is that of reconciling catalog and graph in some order of
/// the operations: first open intents are recovered, then the bindings of ended
/// operations are released.
pub open spec fn reconciled(
    v: CatalogView,
    graph: Graph,
    bindings: Bindings,
    r: Result<(), CatalogError>,
    w: CatalogView,
    after: Bindings,
) -> bool {
    exists|ops: Seq<OperationId>| #[trigger]
        lists_intents(v, ops) && {
            let first = recover_all(v, graph, bindings, ops);
            match first.0 {
                Err(error) => r == Err::<(), CatalogError>(error) && w == first.1 && after
                    == bindings,
                Ok(()) => w == first.1 && (r, after) == release_all(w, graph, bindings, ops),
            }
        }
}

/// Why an actor may not read an intent, if it may not.
pub open spec fn intent_problem(v: CatalogView, actor: PrincipalId, op: OperationId) -> Option<
    CatalogError,
> {
    if !v.intents.dom().contains(op) || !v.principals.dom().contains(actor) {
        Some(CatalogError::NotFound)
    } else if v.principals[actor].state is Disabled {
        Some(CatalogError::PrincipalDisabled)
    } else if actor != v.intents[op].actor {
        Some(CatalogError::PermissionDenied)
    } else {
        None
    }
}

/// Why an actor may not ask after an operation, if it may not.
pub open spec fn query_problem(v: CatalogView, actor: PrincipalId, op: OperationId) -> Option<
    CatalogError,
> {
    if v.operations.dom().contains(op) && v.operations[op].actor != actor {
        Some(CatalogError::PermissionDenied)
    } else if !v.principals.dom().contains(actor) {
        Some(CatalogError::NotFound)
    } else if v.principals[actor].state is Disabled {
        Some(CatalogError::PrincipalDisabled)
    } else {
        None
    }
}

/// Whether the file has the version with that commit.
pub open spec fn has_version(v: CatalogView, file: FileId, id: VersionId, commit: CommitId) -> bool {
    exists|k: int|
        0 <= k < versions_of(v, file).len() && (#[trigger] versions_of(v, file)[k]).id == id
            && versions_of(v, file)[k].commit_id == commit
}

/// Why a reader may not read what it asks for, if it may not.
pub open spec fn reader_problem(
    v: CatalogView,
    actor: PrincipalId,
    file: FileId,
    version: Option<VersionId>,
    commit: Option<CommitId>,
) -> Option<CatalogError> {
    match file_problem(v, actor, file, Capability::Read) {
        Some(error) => Some(error),
        None => match (version, commit) {
            (Some(version), Some(commit)) => if has_version(v, file, version, commit) {
                None
            } else {
                Some(CatalogError::NotFound)
            },
            (None, None) => None,
            _ => Some(CatalogError::NotFound),
        },
    }
}

/// How many readers hold a commit.
pub open spec fn pins(v: CatalogView, commit: CommitId) -> nat {
    if v.reader_pins.dom().contains(commit) {
        v.reader_pins[commit] as nat
    } else {
        0
    }
}

/// The pins after a reader let a commit go.
pub open spec fn unpinned(v: CatalogView, commit: CommitId) -> CatalogView {
    if !v.reader_pins.dom().contains(commit) {
        v
    } else if v.reader_pins[commit] == 1 {
        CatalogView { reader_pins: v.reader_pins.remove(commit), ..v }
    } else {
        CatalogView {
            reader_pins: v.reader_pins.insert(commit, (v.reader_pins[commit] - 1) as u64),
            ..v
        }
    }
}

/// Whether an operation has ended in the catalog and in its index.
pub open spec fn ended_and_tombstoned(v: CatalogView, op: OperationId) -> bool {
    v.intents.dom().contains(op) && v.intents[op].state.ended() && v.handoffs.dom().contains(op)
        && v.handoffs[op].state is Tombstoned && v.handoffs[op].binding is Bound
}

/// Whether a commit is held by something other than the candidate of the given
/// operation: a published version, a retention root, a reader, an open intent, an
/// active handoff, or an active binding of the graph.
pub open spec fn is_root(
    v: CatalogView,
    bindings: Bindings,
    candidate: OperationId,
    commit: CommitId,
) -> bool {
    ||| exists|of: FileId, k: int|
        v.versions.dom().contains(of) && 0 <= k < v.versions[of].len() && (#[trigger] v.versions[of][k]).commit_id
            == commit
    ||| v.retention_roots.contains(commit)
    ||| v.reader_pins.dom().contains(commit)
    ||| exists|op: OperationId| #[trigger]
        v.intents.dom().contains(op) && !v.intents[op].state.ended() && held_by(
            v,
            v.intents[op],
            commit,
        )
    ||| exists|op: OperationId| #[trigger]
        v.handoffs.dom().contains(op) && op != candidate && v.handoffs[op].state is Active
            && v.handoffs[op].has_roots && v.handoffs[op].receipt.commit_id == commit
    ||| exists|op: OperationId| #[trigger]
        bindings.dom().contains(op) && bindings[op].state is Active && bindings[op].commit_id
            == commit && (op != candidate || !ended_and_tombstoned(v, op))
}

/// Whether an open intent holds a commit: as its candidate, or as the version that
/// it was begun on.
pub open spec fn held_by(v: CatalogView, intent: IntentView, commit: CommitId) -> bool {
    (intent.candidate is Some && intent.candidate->0.receipt.commit_id == commit) || commit_named(
        v,
        intent.file,
        intent.expected_head.version_id,
    ) == Some(commit)
}

/// Whether what an operation has committed can be reclaimed: both indexes have put a
/// tombstone on the same receipt, the intent has ended, and every root is there and
/// does not reach the commit.
pub open spec fn reclaimable(
    v: CatalogView,
    graph: Graph,
    bindings: Bindings,
    op: OperationId,
) -> bool {
    &&& v.handoffs.dom().contains(op)
    &&& v.handoffs[op].state is Tombstoned
    &&& !v.handoffs[op].has_roots
    &&& v.handoffs[op].binding is Bound
    &&& v.intents.dom().contains(op) ==> v.intents[op].state.ended()
    &&& released(graph, bindings, v.handoffs[op].receipt)
    &&& forall|root: NodeId| #[trigger]
        is_root(v, bindings, op, root) ==> graph.dom().contains(root) && !reaches(
            graph,
            root,
            v.handoffs[op].receipt.commit_id,
        )
}

/// The catalog after a crash: another coordinator epoch, and no claims.
pub open spec fn reopened(v: CatalogView) -> CatalogView {
    CatalogView {
        coordinator_epoch: (v.coordinator_epoch + 1) as u64,
        intents: Map::new(
            |op: OperationId| v.intents.dom().contains(op),
            |op: OperationId| IntentView { owner_fence: None, ..v.intents[op] },
        ),
        ..v
    }
}

} // verus!
