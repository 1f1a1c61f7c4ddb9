//! What the single-coordinator catalog owes to its callers.
use vstd::prelude::*;

use crate::catalog::account_laws::{law_plain_names_are_taken, plain};
use crate::catalog::graph::Graph;
use crate::catalog::ids::{
    CollectionId, CommitId, CommitReceipt, FileId, OperationId, PrincipalId, VersionId,
};
use crate::catalog::names::nfc_chars;
use crate::catalog::node::{CommitNode, NodeView, SnapshotNode};
use crate::catalog::publication_laws::lemma_first_named;
use crate::catalog::rules::publish_request;
use crate::catalog::types::{
    Capability, CatalogError, FileVersion, Head, IndexState, IntentState, MemberKey, OperationKind,
    OperationResult, PrincipalKind, PrincipalState,
};
use crate::model::rules::{
    abort_outcome, auth_problem, begin_publish_outcome, bind_outcome, bump_problem, bumped,
    claim_outcome, create_collection_outcome, create_file_outcome, file_problem, fresh,
    membership_problem, publish_outcome, reclaimable, recover_outcome, recovery_abort_outcome,
    register_outcome, reopened, state_outcome, BasicView,
};
use crate::model::types::{DagOperationIndexEntry, IntentView};

verus! {

/// Whether the principal is there and active.
pub open spec fn active(v: BasicView, id: PrincipalId) -> bool {
    v.principals.dom().contains(id) && v.principals[id].state == PrincipalState::Active
}

/// Whether the owner has made the actor a member with the capability.
pub open spec fn member(
    v: BasicView,
    owner: PrincipalId,
    actor: PrincipalId,
    capability: Capability,
) -> bool {
    let key = MemberKey { organization: owner, member: actor };
    v.memberships.dom().contains(key) && v.memberships[key] == capability
}

/// Whether an actor may use what an owner has.
pub open spec fn may(
    v: BasicView,
    actor: PrincipalId,
    owner: PrincipalId,
    capability: Capability,
) -> bool {
    &&& active(v, actor)
    &&& active(v, owner)
    &&& actor == owner || (v.principals[owner].kind == PrincipalKind::Organization && (member(
        v,
        owner,
        actor,
        capability,
    ) || member(v, owner, actor, Capability::ManageMembers)))
}

/// Whether the file is there and in a collection that is there.
pub open spec fn placed(v: BasicView, file: FileId) -> bool {
    v.files.dom().contains(file) && v.collections.dom().contains(v.files[file].collection)
}

/// Whether an actor may write the file.
pub open spec fn may_write(v: BasicView, actor: PrincipalId, file: FileId) -> bool {
    placed(v, file) && may(
        v,
        actor,
        v.collections[v.files[file].collection].owner,
        Capability::Write,
    )
}

/// Who may use what an owner has, and why another may not.
pub proof fn law_who_may_act(
    v: BasicView,
    actor: PrincipalId,
    owner: PrincipalId,
    capability: Capability,
    file: FileId,
)
    ensures
        auth_problem(v, actor, owner, capability) is None <==> may(v, actor, owner, capability),
        active(v, actor) && active(v, owner) && !may(v, actor, owner, capability) ==> auth_problem(
            v,
            actor,
            owner,
            capability,
        ) == Some(CatalogError::PermissionDenied),
        !v.principals.dom().contains(actor) ==> auth_problem(v, actor, owner, capability) == Some(
            CatalogError::NotFound,
        ),
        active(v, actor) && !v.principals.dom().contains(owner) ==> auth_problem(
            v,
            actor,
            owner,
            capability,
        ) == Some(CatalogError::NotFound),
        v.principals.dom().contains(actor) && v.principals[actor].state == PrincipalState::Disabled
            ==> auth_problem(v, actor, owner, capability) == Some(CatalogError::PrincipalDisabled),
        active(v, actor) && v.principals.dom().contains(owner) && v.principals[owner].state
            == PrincipalState::Disabled ==> auth_problem(v, actor, owner, capability) == Some(
            CatalogError::PrincipalDisabled,
        ),
        file_problem(v, actor, file) is None <==> may_write(v, actor, file),
        !placed(v, file) ==> file_problem(v, actor, file) == Some(CatalogError::NotFound),
{
}

/// Whether the intent is there and neither published nor given up.
pub open spec fn open(v: BasicView, op: OperationId) -> bool {
    &&& v.intents.dom().contains(op)
    &&& v.intents[op].state == IntentState::Preparing || v.intents[op].state
        == IntentState::CommitDurable
}

/// Whether the number is the claim on the intent, of the coordinator that is there.
pub open spec fn claims(v: BasicView, op: OperationId, fence: u64) -> bool {
    v.intents[op].owner_fence == Some(fence) && fence == v.coordinator_epoch
}

/// Whether no version is recorded as the operation's result.
pub open spec fn without_result(v: BasicView, op: OperationId) -> bool {
    v.operations.dom().contains(op) ==> !(v.operations[op].result matches Some(
        OperationResult::Version(_),
    ))
}

/// Whether a version of the file has the commit.
pub open spec fn has_commit(v: BasicView, file: FileId, commit: CommitId) -> bool {
    exists|of: FileId, k: int|
        v.versions.dom().contains(of) && 0 <= k < v.versions[of].len() && (
        #[trigger] v.versions[of][k]).file == file && v.versions[of][k].commit_id == commit
}

/// Whether everything is as it was when the intent was begun.
pub open spec fn unchanged_since(v: BasicView, op: OperationId) -> bool {
    let intent = v.intents[op];
    &&& may_write(v, intent.actor, intent.file)
    &&& v.principals[intent.actor].authz_epoch == intent.authz_epoch
    &&& v.global_authz_epoch == intent.global_authz_epoch
    &&& v.files[intent.file].head == intent.expected_head
}

/// An intent with its claim and its candidate is published where nothing has changed since it
/// was begun and the commit is a new one.
pub proof fn law_ready_intents_are_published(v: BasicView, op: OperationId, fence: u64)
    requires
        open(v, op),
        without_result(v, op),
        claims(v, op, fence),
        v.intents[op].candidate is Some,
        unchanged_since(v, op),
        !has_commit(v, v.intents[op].file, v.intents[op].candidate->0.receipt.commit_id),
        v.intents[op].expected_head.generation < u64::MAX,
    ensures
        publish_outcome(v, op, fence).0 is Ok,
{
}

/// A published version describes what it publishes: its commit, size and digest are those of
/// the candidate's receipt, its identifier is the candidate's, and it stands one generation
/// after the head that the intent was begun on.
pub proof fn law_published_version_describes_its_candidate(
    v: BasicView,
    op: OperationId,
    fence: u64,
)
    requires
        open(v, op),
        without_result(v, op),
        publish_outcome(v, op, fence).0 is Ok,
    ensures
        ({
            let intent = v.intents[op];
            let receipt = intent.candidate->0.receipt;
            let version = publish_outcome(v, op, fence).0->Ok_0;
            &&& intent.candidate is Some
            &&& version.commit_id == receipt.commit_id
            &&& version.size == receipt.snapshot_size
            &&& version.digest == receipt.snapshot_digest
            &&& version.id == intent.candidate->0.version_id
            &&& version.file == intent.file
            &&& version.generation == intent.expected_head.generation + 1
            &&& version.parent_version_id == intent.expected_head.version_id
        }),
{
}

/// What a publication leaves behind: the version is the last of its file's and the head, the
/// intent is published and lets go, the operation has the version as its result, and the entry
/// of the receipt is put aside.
pub proof fn law_publication_leaves(v: BasicView, op: OperationId, fence: u64)
    requires
        open(v, op),
        without_result(v, op),
        publish_outcome(v, op, fence).0 is Ok,
    ensures
        ({
            let intent = v.intents[op];
            let file = intent.file;
            let (answer, w) = publish_outcome(v, op, fence);
            let version = answer->Ok_0;
            &&& w.versions.dom() == v.versions.dom().insert(file)
            &&& w.versions[file].len() > 0
            &&& w.versions[file].last() == version
            &&& w.versions[file].drop_last() == if v.versions.dom().contains(file) {
                v.versions[file]
            } else {
                Seq::empty()
            }
            &&& forall|other: FileId|
                other != file && v.versions.dom().contains(other) ==> #[trigger] w.versions[other]
                    == v.versions[other]
            &&& w.files[file].head == (Head {
                version_id: Some(version.id),
                generation: version.generation,
            })
            &&& w.files[file].name == v.files[file].name
            &&& w.files[file].collection == v.files[file].collection
            &&& forall|other: FileId|
                other != file && v.files.dom().contains(other) ==> #[trigger] w.files[other]
                    == v.files[other]
            &&& w.intents == v.intents.insert(
                op,
                IntentView {
                    state: IntentState::Published,
                    pinned: false,
                    owner_fence: None,
                    ..intent
                },
            )
            &&& v.operations.dom().contains(op) ==> w.operations[op].result == Some(
                OperationResult::Version(version),
            )
            &&& v.dag_index.dom().contains(op) ==> w.dag_index[op].state == IndexState::Tombstoned
                && !w.dag_index[op].has_roots && w.dag_index[op].receipt == v.dag_index[op].receipt
            &&& w.principals == v.principals
            &&& w.collections == v.collections
            &&& w.memberships == v.memberships
            &&& w.reader_pins == v.reader_pins
            &&& w.retention_roots == v.retention_roots
        }),
{
    let file = v.intents[op].file;
    let (answer, w) = publish_outcome(v, op, fence);
    let before = if v.versions.dom().contains(file) {
        v.versions[file]
    } else {
        Seq::empty()
    };
    assert(w.versions[file] == before.push(answer->Ok_0));
    assert(before.push(answer->Ok_0).drop_last() =~= before);
}

/// Why an open intent is not published: no claim, no candidate, no file, the right to write
/// lost, the head or the authorization changed, or the commit published before. For the last
/// three the intent is given up with the reason.
pub proof fn law_unready_intents_are_answered(v: BasicView, op: OperationId, fence: u64)
    requires
        open(v, op),
        without_result(v, op),
    ensures
        ({
            let intent = v.intents[op];
            let (answer, w) = publish_outcome(v, op, fence);
            let claimed = claims(v, op, fence);
            let ready = claimed && intent.candidate is Some && placed(v, intent.file);
            let allowed = ready && may_write(v, intent.actor, intent.file);
            let commit = intent.candidate->0.receipt.commit_id;
            &&& answer is Err ==> w.versions == v.versions && w.files == v.files
            &&& !claimed ==> answer is Err && answer->Err_0 == CatalogError::FenceLost && w == v
            &&& claimed && intent.candidate is None ==> answer is Err && answer->Err_0
                == CatalogError::InvalidIntent && w == v
            &&& claimed && intent.candidate is Some && !placed(v, intent.file) ==> answer is Err
                && answer->Err_0 == CatalogError::NotFound && w == v
            &&& ready && !allowed ==> answer is Err && answer->Err_0
                == CatalogError::PermissionDenied && w.intents[op].abort_reason == Some(
                "authorization changed"@,
            )
            &&& allowed && !unchanged_since(v, op) ==> answer is Err && answer->Err_0
                == CatalogError::HeadConflict && w.intents[op].abort_reason == Some(
                "head CAS failed"@,
            )
            &&& allowed && unchanged_since(v, op) && has_commit(v, intent.file, commit) ==> answer
                is Err && answer->Err_0 == CatalogError::DuplicateCommit
                && w.intents[op].abort_reason == Some("duplicate Commit"@)
            &&& ready && (!unchanged_since(v, op) || has_commit(v, intent.file, commit))
                ==> w.intents[op].state == IntentState::Aborted && w.intents[op].owner_fence is None
                && !w.intents[op].pinned && (v.operations.dom().contains(op)
                ==> w.operations[op].error == Some(answer->Err_0))
        }),
{
}

/// An operation with a version is answered with it, one without an intent is not found.
pub proof fn law_known_ends_are_answered(v: BasicView, op: OperationId, fence: u64)
    ensures
        v.operations.dom().contains(op) ==> (v.operations[op].result matches Some(
            OperationResult::Version(version),
        ) ==> publish_outcome(v, op, fence) == (Ok::<FileVersion, CatalogError>(version), v)),
        without_result(v, op) && !v.intents.dom().contains(op) ==> publish_outcome(v, op, fence)
            == (Err::<FileVersion, CatalogError>(CatalogError::NotFound), v),
        without_result(v, op) && v.intents.dom().contains(op) && v.intents[op].state
            == IntentState::Aborted && v.operations.dom().contains(op) && v.operations[op].error
            is Some ==> publish_outcome(v, op, fence) == (
            Err::<FileVersion, CatalogError>(v.operations[op].error->0),
            v,
        ),
{
}

/// A new request to publish on the head that is there is taken in.
pub proof fn law_publication_begins(
    v: BasicView,
    actor: PrincipalId,
    file: FileId,
    op: OperationId,
)
    requires
        !v.operations.dom().contains(op),
        may_write(v, actor, file),
        v.next_version < u64::MAX,
        v.files[file].head.generation < u64::MAX,
    ensures
        ({
            let head = v.files[file].head;
            let (answer, w) = begin_publish_outcome(v, actor, file, op, head);
            let intent = w.intents[op];
            &&& answer is Ok
            &&& answer->Ok_0 == intent
            &&& w.intents.dom() == v.intents.dom().insert(op)
            &&& intent.operation_id == op
            &&& intent.actor == actor
            &&& intent.file == file
            &&& intent.state == IntentState::Preparing
            &&& intent.authz_epoch == v.principals[actor].authz_epoch
            &&& intent.global_authz_epoch == v.global_authz_epoch
            &&& intent.expected_head == head
            &&& intent.base == if head.version_id is Some {
                Some(head)
            } else {
                None
            }
            &&& intent.version_id == VersionId(v.next_version)
            &&& w.next_version == v.next_version + 1
            &&& intent.candidate is None
            &&& intent.abort_reason is None
            &&& intent.pinned
            &&& claims(w, op, v.coordinator_epoch)
            &&& w.operations[op].operation_id == op
            &&& w.operations[op].actor == actor
            &&& w.operations[op].kind == OperationKind::Publish
            &&& w.operations[op].request_fingerprint == publish_request(actor, file, head)
            &&& w.operations[op].result is None
            &&& w.operations[op].error is None
            &&& unchanged_since(w, op)
        }),
{
    let head = v.files[file].head;
    let w = begin_publish_outcome(v, actor, file, op, head).1;
    assert(w.intents.dom() =~= v.intents.dom().insert(op));
}

/// Why a new request to publish is not taken in. The failure is recorded with the request.
pub proof fn law_publication_does_not_begin(
    v: BasicView,
    actor: PrincipalId,
    file: FileId,
    op: OperationId,
    expected: Head,
)
    requires
        !v.operations.dom().contains(op),
    ensures
        ({
            let (answer, w) = begin_publish_outcome(v, actor, file, op, expected);
            let allowed = may_write(v, actor, file);
            let current = allowed && v.files[file].head == expected;
            &&& answer is Err ==> w.operations[op].error == Some(answer->Err_0) && w.intents
                == v.intents
            &&& !allowed ==> answer is Err && Some(answer->Err_0) == file_problem(v, actor, file)
            &&& allowed && !current ==> answer is Err && answer->Err_0 == CatalogError::HeadConflict
            &&& current && v.next_version == u64::MAX ==> answer is Err && answer->Err_0
                == CatalogError::IdExhausted
            &&& current && v.next_version < u64::MAX && expected.generation == u64::MAX ==> answer
                is Err && answer->Err_0 == CatalogError::GenerationExhausted
        }),
{
}

/// The receipt of a commit in the graph is taken in for the one who has the claim, with what
/// the commit and its snapshot say, once.
pub proof fn law_receipts_are_taken_in(
    v: BasicView,
    graph: Graph,
    op: OperationId,
    fence: u64,
    commit: CommitId,
    node: CommitNode,
    snapshot: SnapshotNode,
)
    requires
        open(v, op),
        claims(v, op, fence),
        graph.dom().contains(commit),
        graph[commit] == NodeView::Commit(node),
        NodeView::Commit(node).digest() == commit@,
        graph.dom().contains(node.snapshot),
        graph[node.snapshot] == NodeView::Snapshot(snapshot),
    ensures
        ({
            let receipt = CommitReceipt {
                operation_id: op,
                commit_id: commit,
                snapshot_id: node.snapshot,
                snapshot_size: snapshot.logical_size,
                snapshot_digest: snapshot.content_digest,
                parent: node.parent,
            };
            let (answer, w) = register_outcome(v, graph, op, fence, commit);
            &&& !v.dag_index.dom().contains(op) ==> answer == Ok::<CommitReceipt, CatalogError>(
                receipt,
            ) && w.dag_index == v.dag_index.insert(
                op,
                DagOperationIndexEntry { receipt, state: IndexState::Active, has_roots: true },
            ) && w.intents == v.intents && w.versions == v.versions
            &&& v.dag_index.dom().contains(op) && v.dag_index[op].receipt == receipt ==> answer
                == Ok::<CommitReceipt, CatalogError>(receipt) && w == v
            &&& v.dag_index.dom().contains(op) && v.dag_index[op].receipt != receipt ==> answer
                == Err::<CommitReceipt, CatalogError>(CatalogError::OperationConflict) && w == v
        }),
{
}

/// No receipt is taken in without an intent, for one that has ended, without the claim, or for
/// something that is no commit.
pub proof fn law_receipts_are_refused(
    v: BasicView,
    graph: Graph,
    op: OperationId,
    fence: u64,
    commit: CommitId,
)
    ensures
        ({
            let (answer, w) = register_outcome(v, graph, op, fence, commit);
            let there = v.intents.dom().contains(op);
            &&& answer is Err ==> w == v
            &&& !there ==> answer is Err && answer->Err_0 == CatalogError::NotFound
            &&& there && !open(v, op) ==> answer is Err && answer->Err_0
                == CatalogError::InvalidIntent
            &&& open(v, op) && !claims(v, op, fence) ==> answer is Err && answer->Err_0
                == CatalogError::FenceLost
            &&& open(v, op) && claims(v, op, fence) && (!graph.dom().contains(commit)
                || !(graph[commit] is Commit)) ==> answer is Err && answer->Err_0
                == CatalogError::InvalidCommit
        }),
{
}

/// Whether the receipt's parent is what the intent was begun on.
pub open spec fn continues_base(
    v: BasicView,
    intent: IntentView,
    receipt: CommitReceipt,
) -> bool {
    match intent.base {
        None => receipt.parent is None,
        Some(head) => match head.version_id {
            None => receipt.parent is None,
            Some(id) => v.versions.dom().contains(intent.file) && exists|k: int|
                0 <= k < v.versions[intent.file].len() && (
                #[trigger] v.versions[intent.file][k]).id == id && receipt.parent == Some(
                    v.versions[intent.file][k].commit_id,
                ) && forall|j: int|
                    0 <= j < k ==> (#[trigger] v.versions[intent.file][j]).id != id,
        },
    }
}

/// The receipt is attached to the intent where it continues what the intent was begun on.
pub proof fn law_receipts_are_attached(v: BasicView, op: OperationId, fence: u64)
    requires
        open(v, op),
        claims(v, op, fence),
        v.dag_index.dom().contains(op),
        continues_base(v, v.intents[op], v.dag_index[op].receipt),
    ensures
        ({
            let (answer, w) = bind_outcome(v, op, fence);
            let intent = w.intents[op];
            &&& answer is Ok
            &&& answer->Ok_0 == intent
            &&& intent.state == IntentState::CommitDurable
            &&& intent.candidate is Some
            &&& intent.candidate->0.receipt == v.dag_index[op].receipt
            &&& intent.candidate->0.version_id == v.intents[op].version_id
            &&& intent == (IntentView {
                state: intent.state,
                candidate: intent.candidate,
                ..v.intents[op]
            })
            &&& w == (BasicView { intents: w.intents, ..v })
            &&& w.intents == v.intents.insert(op, intent)
        }),
{
    let intent = v.intents[op];
    if let Some(head) = intent.base {
        if let Some(id) = head.version_id {
            let list = v.versions[intent.file];
            let k = choose|k: int|
                0 <= k < list.len() && (#[trigger] list[k]).id == id
                    && v.dag_index[op].receipt.parent == Some(list[k].commit_id) && forall|j: int|
                    0 <= j < k ==> (#[trigger] list[j]).id != id;
            lemma_first_named(list, id, k);
        }
    }
}

/// A receipt with another parent ends the intent, and nothing is attached without a receipt or
/// without the claim.
pub proof fn law_strange_receipts_end_the_intent(
    v: BasicView,
    op: OperationId,
    fence: u64,
)
    ensures
        open(v, op) && claims(v, op, fence) && v.dag_index.dom().contains(op) && v.intents[op].base
            is None && v.dag_index[op].receipt.parent is Some ==> bind_outcome(v, op, fence).0
            == Err::<IntentView, CatalogError>(CatalogError::CandidateMismatch) && bind_outcome(
            v,
            op,
            fence,
        ).1.intents[op].state == IntentState::Aborted,
        !v.dag_index.dom().contains(op) || !v.intents.dom().contains(op) ==> bind_outcome(
            v,
            op,
            fence,
        ) == (Err::<IntentView, CatalogError>(CatalogError::NotFound), v),
        open(v, op) && v.dag_index.dom().contains(op) && !claims(v, op, fence) ==> bind_outcome(
            v,
            op,
            fence,
        ) == (Err::<IntentView, CatalogError>(CatalogError::FenceLost), v),
{
}

/// An intent is given up by one who may write its file and has the claim, and left alone
/// otherwise.
pub proof fn law_intents_are_given_up(
    v: BasicView,
    op: OperationId,
    actor: PrincipalId,
    fence: u64,
    reason: Seq<char>,
)
    ensures
        open(v, op) && claims(v, op, fence) && may_write(v, actor, v.intents[op].file) ==> {
            let (answer, w) = abort_outcome(v, op, actor, fence);
            &&& answer == Ok::<IntentView, CatalogError>(w.intents[op])
            &&& w.intents[op] == (IntentView {
                state: IntentState::Aborted,
                abort_reason: Some("caller abort"@),
                owner_fence: None,
                pinned: false,
                ..v.intents[op]
            })
            &&& v.operations.dom().contains(op) ==> w.operations[op].result == Some(
                OperationResult::Aborted,
            )
            &&& w.versions == v.versions
            &&& w.files == v.files
        },
        open(v, op) && !claims(v, op, fence) && may_write(v, actor, v.intents[op].file)
            ==> abort_outcome(v, op, actor, fence) == (
            Err::<IntentView, CatalogError>(CatalogError::FenceLost),
            v,
        ),
        v.intents.dom().contains(op) && !may_write(v, actor, v.intents[op].file) ==> abort_outcome(
            v,
            op,
            actor,
            fence,
        ).0 is Err && abort_outcome(v, op, actor, fence).1 == v,
        open(v, op) && claims(v, op, fence) ==> {
            let (answer, w) = recovery_abort_outcome(v, op, fence, reason);
            &&& answer == Ok::<IntentView, CatalogError>(w.intents[op])
            &&& w.intents[op].state == IntentState::Aborted
            &&& w.intents[op].abort_reason == Some(reason)
            &&& v.operations.dom().contains(op) ==> w.operations[op].error == Some(
                CatalogError::InvalidIntent,
            )
        },
        open(v, op) && !claims(v, op, fence) ==> recovery_abort_outcome(v, op, fence, reason) == (
            Err::<IntentView, CatalogError>(CatalogError::FenceLost),
            v,
        ),
{
}

/// An open intent that nobody has a claim on is claimed by the coordinator that is there.
pub proof fn law_unclaimed_intents_are_claimed(v: BasicView, op: OperationId)
    ensures
        open(v, op) && v.intents[op].owner_fence is None ==> {
            let (answer, w) = claim_outcome(v, op);
            &&& answer == Ok::<u64, CatalogError>(v.coordinator_epoch)
            &&& claims(w, op, v.coordinator_epoch)
            &&& w.intents == v.intents.insert(
                op,
                IntentView { owner_fence: Some(v.coordinator_epoch), ..v.intents[op] },
            )
            &&& w.versions == v.versions
        },
        open(v, op) && v.intents[op].owner_fence is Some ==> claim_outcome(v, op) == (
            Err::<u64, CatalogError>(CatalogError::FenceLost),
            v,
        ),
        v.intents.dom().contains(op) && !open(v, op) ==> claim_outcome(v, op) == (
            Err::<u64, CatalogError>(CatalogError::InvalidIntent),
            v,
        ),
        !v.intents.dom().contains(op) ==> claim_outcome(v, op) == (
            Err::<u64, CatalogError>(CatalogError::NotFound),
            v,
        ),
{
}

/// Recovery publishes an unclaimed intent whose receipt was taken in where nothing has changed
/// since it was begun.
pub proof fn law_recovery_publishes(v: BasicView, op: OperationId)
    requires
        open(v, op),
        without_result(v, op),
        v.intents[op].owner_fence is None,
        v.dag_index.dom().contains(op),
        continues_base(v, v.intents[op], v.dag_index[op].receipt),
        unchanged_since(v, op),
        !has_commit(v, v.intents[op].file, v.dag_index[op].receipt.commit_id),
        v.intents[op].expected_head.generation < u64::MAX,
    ensures
        ({
            let (answer, w) = recover_outcome(v, op);
            let receipt = v.dag_index[op].receipt;
            let version = w.versions[v.intents[op].file].last();
            &&& answer == Ok::<IntentView, CatalogError>(w.intents[op])
            &&& w.intents[op].state == IntentState::Published
            &&& version.id == v.intents[op].version_id
            &&& version.commit_id == receipt.commit_id
            &&& version.size == receipt.snapshot_size
            &&& version.digest == receipt.snapshot_digest
            &&& w.files[v.intents[op].file].head.version_id == Some(version.id)
        }),
{
    let claim = claim_outcome(v, op);
    let fence = v.coordinator_epoch;
    assert(continues_base(claim.1, claim.1.intents[op], v.dag_index[op].receipt));
    law_receipts_are_attached(claim.1, op, fence);
    let bound = bind_outcome(claim.1, op, fence).1;
    assert(unchanged_since(bound, op));
    law_ready_intents_are_published(bound, op, fence);
    law_published_version_describes_its_candidate(bound, op, fence);
    law_publication_leaves(bound, op, fence);
}

/// A collection is made for one in charge of the owner's members under a plain name that is
/// free, and a file for one who may write.
pub proof fn law_collections_and_files_are_made(
    v: BasicView,
    actor: PrincipalId,
    owner: PrincipalId,
    collection: CollectionId,
    text: Seq<char>,
    op: OperationId,
)
    requires
        !v.operations.dom().contains(op),
        plain(nfc_chars(text)),
    ensures
        may(v, actor, owner, Capability::ManageMembers) && (forall|id: CollectionId| #[trigger]
            v.collections.dom().contains(id) && v.collections[id].owner == owner
                ==> v.collections[id].name != nfc_chars(text)) && v.next_collection < u64::MAX ==> {
            let (answer, w) = create_collection_outcome(v, actor, owner, text, op);
            let id = CollectionId(v.next_collection);
            &&& answer == Ok::<CollectionId, CatalogError>(id)
            &&& w.next_collection == v.next_collection + 1
            &&& w.collections[id].id == id
            &&& w.collections[id].owner == owner
            &&& w.collections[id].name == nfc_chars(text)
            &&& w.collections == v.collections.insert(id, w.collections[id])
            &&& w.operations[op].result == Some(OperationResult::Collection(id))
            &&& w.operations[op].kind == OperationKind::CreateCollection
            &&& w.operations[op].actor == actor
        },
        v.collections.dom().contains(collection) && may(
            v,
            actor,
            v.collections[collection].owner,
            Capability::Write,
        ) && (forall|id: FileId| #[trigger]
            v.files.dom().contains(id) && v.files[id].collection == collection ==> v.files[id].name
                != nfc_chars(text)) && v.next_file < u64::MAX ==> {
            let (answer, w) = create_file_outcome(v, actor, collection, text, op);
            let id = FileId(v.next_file);
            &&& answer == Ok::<FileId, CatalogError>(id)
            &&& w.next_file == v.next_file + 1
            &&& w.files[id].id == id
            &&& w.files[id].collection == collection
            &&& w.files[id].name == nfc_chars(text)
            &&& w.files[id].head.version_id is None
            &&& w.files[id].head.generation == 0
            &&& w.files == v.files.insert(id, w.files[id])
            &&& w.operations[op].result == Some(OperationResult::File(id))
            &&& w.operations[op].kind == OperationKind::CreateFile
            &&& w.operations[op].actor == actor
        },
{
    law_plain_names_are_taken(text);
}

/// Why a collection or a file is not made: a bad name, no right, a name in use, no collection.
pub proof fn law_collections_and_files_are_refused(
    v: BasicView,
    actor: PrincipalId,
    owner: PrincipalId,
    collection: CollectionId,
    text: Seq<char>,
    op: OperationId,
)
    requires
        !v.operations.dom().contains(op),
    ensures
        !plain(nfc_chars(text)) ==> create_collection_outcome(v, actor, owner, text, op) == (
            Err::<CollectionId, CatalogError>(CatalogError::InvalidName),
            v,
        ) && create_file_outcome(v, actor, collection, text, op) == (
            Err::<FileId, CatalogError>(CatalogError::InvalidName),
            v,
        ),
        plain(nfc_chars(text)) && !may(v, actor, owner, Capability::ManageMembers)
            ==> create_collection_outcome(v, actor, owner, text, op).0 is Err
            && create_collection_outcome(v, actor, owner, text, op).1.collections
            == v.collections,
        plain(nfc_chars(text)) && may(v, actor, owner, Capability::ManageMembers) && (exists|
            id: CollectionId,
        | #[trigger]
            v.collections.dom().contains(id) && v.collections[id].owner == owner
                && v.collections[id].name == nfc_chars(text)) ==> create_collection_outcome(
            v,
            actor,
            owner,
            text,
            op,
        ).0 == Err::<CollectionId, CatalogError>(CatalogError::NameTaken),
        plain(nfc_chars(text)) && !v.collections.dom().contains(collection) ==> create_file_outcome(
            v,
            actor,
            collection,
            text,
            op,
        ).0 == Err::<FileId, CatalogError>(CatalogError::NotFound),
        plain(nfc_chars(text)) && v.collections.dom().contains(collection) && !may(
            v,
            actor,
            v.collections[collection].owner,
            Capability::Write,
        ) ==> create_file_outcome(v, actor, collection, text, op).0 is Err && create_file_outcome(
            v,
            actor,
            collection,
            text,
            op,
        ).1.files == v.files,
        plain(nfc_chars(text)) && v.collections.dom().contains(collection) && may(
            v,
            actor,
            v.collections[collection].owner,
            Capability::Write,
        ) && (exists|id: FileId| #[trigger]
            v.files.dom().contains(id) && v.files[id].collection == collection && v.files[id].name
                == nfc_chars(text)) ==> create_file_outcome(v, actor, collection, text, op).0
            == Err::<FileId, CatalogError>(CatalogError::NameTaken),
{
    law_plain_names_are_taken(text);
}

/// A membership is changed by one in charge of the organization's members, as long as the
/// epochs can move on; each change moves the epochs of both and the common one on by one.
pub proof fn law_memberships_are_changed(
    v: BasicView,
    actor: PrincipalId,
    organization: PrincipalId,
    subject: PrincipalId,
    other: PrincipalId,
)
    ensures
        ({
            let problem = membership_problem(v, actor, organization, subject);
            let charge = may(v, actor, organization, Capability::ManageMembers);
            let proper = charge && v.principals[organization].kind == PrincipalKind::Organization;
            let there = proper && v.principals.dom().contains(subject);
            let room = v.global_authz_epoch < u64::MAX && v.principals[organization].authz_epoch
                < u64::MAX && v.principals[subject].authz_epoch < u64::MAX;
            &&& problem is None <==> there && room
            &&& charge && !proper ==> problem == Some(CatalogError::InvalidOrganization)
            &&& proper && !there ==> problem == Some(CatalogError::NotFound)
            &&& there && !room ==> problem == Some(CatalogError::EpochExhausted)
        }),
        v.principals.dom().contains(organization) && v.principals.dom().contains(subject)
            && v.global_authz_epoch < u64::MAX && v.principals[organization].authz_epoch < u64::MAX
            && v.principals[subject].authz_epoch < u64::MAX ==> {
            let w = bumped(v, organization, subject);
            &&& bump_problem(v, organization, subject) is None
            &&& w.global_authz_epoch == v.global_authz_epoch + 1
            &&& w.principals[organization].authz_epoch == v.principals[organization].authz_epoch + 1
            &&& w.principals[subject].authz_epoch == v.principals[subject].authz_epoch + 1
            &&& w.principals[organization].state == v.principals[organization].state
            &&& w.principals[organization].kind == v.principals[organization].kind
            &&& w.principals[subject].state == v.principals[subject].state
            &&& w.principals[subject].kind == v.principals[subject].kind
            &&& other != organization && other != subject ==> w.principals[other]
                == v.principals[other]
        },
{
}

/// A principal changes its state with its own epoch and the common one moved on by one.
pub proof fn law_principals_change_state(
    v: BasicView,
    id: PrincipalId,
    other: PrincipalId,
    state: PrincipalState,
)
    ensures
        v.principals.dom().contains(id) && v.principals[id].authz_epoch < u64::MAX
            && v.global_authz_epoch < u64::MAX ==> {
            let (answer, w) = state_outcome(v, id, state);
            &&& answer is Ok
            &&& w.principals[id].state == state
            &&& w.principals[id].authz_epoch == v.principals[id].authz_epoch + 1
            &&& w.principals[id].kind == v.principals[id].kind
            &&& w.global_authz_epoch == v.global_authz_epoch + 1
            &&& other != id ==> w.principals[other] == v.principals[other]
            &&& w.memberships == v.memberships
        },
        !v.principals.dom().contains(id) ==> state_outcome(v, id, state) == (
            Err::<(), CatalogError>(CatalogError::NotFound),
            v,
        ),
        v.principals.dom().contains(id) && (v.principals[id].authz_epoch == u64::MAX
            || v.global_authz_epoch == u64::MAX) ==> state_outcome(v, id, state) == (
            Err::<(), CatalogError>(CatalogError::EpochExhausted),
            v,
        ),
{
}

/// What was put aside and nothing else holds can be reclaimed, and nothing else can.
pub proof fn law_unheld_commits_are_reclaimed(v: BasicView, op: OperationId)
    ensures
        reclaimable(v, op) <==> {
            let commit = v.dag_index[op].receipt.commit_id;
            &&& v.dag_index.dom().contains(op)
            &&& v.dag_index[op].state == IndexState::Tombstoned
            &&& !v.dag_index[op].has_roots
            &&& forall|of: FileId, k: int|
                v.versions.dom().contains(of) && 0 <= k < v.versions[of].len() ==> (
                #[trigger] v.versions[of][k]).commit_id != commit
            &&& forall|other: OperationId| #[trigger]
                v.intents.dom().contains(other) && open(v, other) && v.intents[other].candidate
                    is Some ==> v.intents[other].candidate->0.receipt.commit_id != commit
            &&& !v.retention_roots.contains(commit)
            &&& !v.reader_pins.contains(commit)
        },
{
}

/// After a restart the coordinator is the next one, no intent is claimed, and nothing else has
/// changed. A new catalog has nothing in it and its first coordinator.
pub proof fn law_restart_frees_the_intents(v: BasicView, op: OperationId)
    requires
        v.coordinator_epoch < u64::MAX,
    ensures
        reopened(v).coordinator_epoch == v.coordinator_epoch + 1,
        reopened(v).intents.dom() == v.intents.dom(),
        v.intents.dom().contains(op) ==> reopened(v).intents[op] == (IntentView {
            owner_fence: None,
            ..v.intents[op]
        }),
        reopened(v) == (BasicView {
            coordinator_epoch: reopened(v).coordinator_epoch,
            intents: reopened(v).intents,
            ..v
        }),
        fresh().coordinator_epoch == 1,
        fresh().global_authz_epoch == 0,
        !fresh().intents.dom().contains(op),
        !fresh().operations.dom().contains(op),
        !fresh().dag_index.dom().contains(op),
{
    assert(reopened(v).intents.dom() =~= v.intents.dom());
}

/// A request to publish that is known is answered from what is recorded: with the intent, with
/// the error that it ended with, or with a conflict where it is another request. Nothing
/// changes.
pub proof fn law_known_publication_is_answered(
    v: BasicView,
    actor: PrincipalId,
    file: FileId,
    op: OperationId,
    expected: Head,
)
    requires
        v.operations.dom().contains(op),
    ensures
        ({
            let record = v.operations[op];
            let same = record.actor == actor && record.kind == OperationKind::Publish
                && record.request_fingerprint == publish_request(actor, file, expected);
            let (answer, w) = begin_publish_outcome(v, actor, file, op, expected);
            &&& w == v
            &&& !same ==> answer == Err::<IntentView, CatalogError>(
                CatalogError::OperationConflict,
            )
            &&& same && record.error is Some ==> answer == Err::<IntentView, CatalogError>(
                record.error->0,
            )
            &&& same && record.error is None && v.intents.dom().contains(op) ==> answer == Ok::<
                IntentView,
                CatalogError,
            >(v.intents[op])
        }),
{
}

/// Recovery of an intent whose receipt was not taken in claims it and leaves it open; one that
/// has ended is shown, and one that is claimed is not touched.
pub proof fn law_other_intents_are_not_recovered(v: BasicView, op: OperationId)
    ensures
        open(v, op) && v.intents[op].owner_fence is None && !v.dag_index.dom().contains(op) ==> {
            let (answer, w) = recover_outcome(v, op);
            &&& answer == Ok::<IntentView, CatalogError>(w.intents[op])
            &&& w.intents[op] == (IntentView {
                owner_fence: Some(v.coordinator_epoch),
                ..v.intents[op]
            })
            &&& w.versions == v.versions
        },
        v.intents.dom().contains(op) && !open(v, op) ==> recover_outcome(v, op) == (
            Ok::<IntentView, CatalogError>(v.intents[op]),
            v,
        ),
        open(v, op) && v.intents[op].owner_fence is Some ==> recover_outcome(v, op) == (
            Err::<IntentView, CatalogError>(CatalogError::FenceLost),
            v,
        ),
        !v.intents.dom().contains(op) ==> recover_outcome(v, op) == (
            Err::<IntentView, CatalogError>(CatalogError::NotFound),
            v,
        ),
{
}

} // verus!
