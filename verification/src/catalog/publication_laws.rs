//! What a publication owes to the actor who drives it, from its beginning to its end.
use vstd::prelude::*;

use crate::catalog::ids::{CommitId, CommitReceipt, FileId, OperationId, PrincipalId, VersionId};
use crate::catalog::rules::{
    abort_outcome, auth_problem, begin_publish_outcome, bind_outcome, claim_outcome, fence_problem,
    file_problem, permit_problem, publish_outcome, publish_request, recover_outcome,
    recovery_abort_outcome, recovery_reason, register_outcome, reopened, resume_outcome,
    version_named, CatalogView,
};
use crate::catalog::types::{
    lemma_token, Capability, CatalogError, CatalogHandoff, Collection, DagBindingState, FenceToken,
    File, FileVersion, Head, IndexState, IntentState, IntentView, MemberKey, OperationKind,
    OperationResult, PrincipalKind, PrincipalState, PublicPublishIntent, PublishIntent,
};

verus! {

/// Whether the principal is there and active.
pub open spec fn active(v: CatalogView, id: PrincipalId) -> bool {
    v.principals.dom().contains(id) && v.principals[id].state == PrincipalState::Active
}

/// Whether the owner has made the actor a member with the capability.
pub open spec fn member(
    v: CatalogView,
    owner: PrincipalId,
    actor: PrincipalId,
    capability: Capability,
) -> bool {
    let key = MemberKey { organization: owner, member: actor };
    v.memberships.dom().contains(key) && v.memberships[key] == capability
}

/// Whether an actor may use what an owner has: both are active, and the actor is the owner or
/// a member of the organization that is, with that capability or in charge of the members.
pub open spec fn may(
    v: CatalogView,
    actor: PrincipalId,
    owner: PrincipalId,
    capability: Capability,
) -> bool {
    &&& active(v, actor)
    &&& active(v, owner)
    &&& actor == owner || (v.principals[owner].kind == PrincipalKind::Organization && (member(
        v,
        owner,
        actor,
        capability,
    ) || member(v, owner, actor, Capability::ManageMembers)))
}

/// Whether the file is there and in a collection that is there.
pub open spec fn placed(v: CatalogView, file: FileId) -> bool {
    v.files.dom().contains(file) && v.collections.dom().contains(v.files[file].collection)
}

/// Whether an actor may use the file.
pub open spec fn may_use(
    v: CatalogView,
    actor: PrincipalId,
    file: FileId,
    capability: Capability,
) -> bool {
    placed(v, file) && may(v, actor, v.collections[v.files[file].collection].owner, capability)
}

/// Who may use what an owner has, and why another may not.
pub proof fn law_who_may_act(
    v: CatalogView,
    actor: PrincipalId,
    owner: PrincipalId,
    capability: Capability,
)
    ensures
        auth_problem(v, actor, owner, capability) is None <==> may(v, actor, owner, capability),
        auth_problem(v, actor, owner, capability) == Some(CatalogError::NotFound)
            <==> !v.principals.dom().contains(actor) || (active(v, actor)
            && !v.principals.dom().contains(owner)),
        active(v, actor) && active(v, owner) && !may(v, actor, owner, capability) ==> auth_problem(
            v,
            actor,
            owner,
            capability,
        ) == Some(CatalogError::PermissionDenied),
        v.principals.dom().contains(actor) && v.principals[actor].state == PrincipalState::Disabled
            ==> auth_problem(v, actor, owner, capability) == Some(CatalogError::PrincipalDisabled),
        active(v, actor) && v.principals.dom().contains(owner) && v.principals[owner].state
            == PrincipalState::Disabled ==> auth_problem(v, actor, owner, capability) == Some(
            CatalogError::PrincipalDisabled,
        ),
{
}

/// Reading alone is not writing, and writing is not being in charge of the members.
pub proof fn law_capabilities_are_apart(
    v: CatalogView,
    actor: PrincipalId,
    owner: PrincipalId,
)
    requires
        actor != owner,
    ensures
        member(v, owner, actor, Capability::Read) ==> auth_problem(
            v,
            actor,
            owner,
            Capability::Write,
        ) is Some && auth_problem(v, actor, owner, Capability::ManageMembers) is Some,
        member(v, owner, actor, Capability::Write) ==> auth_problem(
            v,
            actor,
            owner,
            Capability::Read,
        ) is Some && auth_problem(v, actor, owner, Capability::ManageMembers) is Some,
{
}

/// A file is used as its collection is; one that is not there is not found.
pub proof fn law_who_may_use_a_file(
    v: CatalogView,
    actor: PrincipalId,
    file: FileId,
    capability: Capability,
)
    ensures
        file_problem(v, actor, file, capability) is None <==> may_use(v, actor, file, capability),
        !placed(v, file) ==> file_problem(v, actor, file, capability) == Some(
            CatalogError::NotFound,
        ),
        placed(v, file) ==> file_problem(v, actor, file, capability) == auth_problem(
            v,
            actor,
            v.collections[v.files[file].collection].owner,
            capability,
        ),
{
}

/// Whether the operation is recorded as the actor's publication that the intent is of.
pub open spec fn recorded_as(v: CatalogView, op: OperationId, intent: IntentView) -> bool {
    &&& v.operations.dom().contains(op)
    &&& v.operations[op].operation_id == op
    &&& v.operations[op].actor == intent.actor
    &&& v.operations[op].kind == OperationKind::Publish
    &&& v.operations[op].request_fingerprint == publish_request(
        intent.actor,
        intent.file,
        intent.expected_head,
    )
}

/// Whether the intent is there and neither published nor given up.
pub open spec fn open(v: CatalogView, op: OperationId) -> bool {
    &&& v.intents.dom().contains(op)
    &&& v.intents[op].state == IntentState::Preparing || v.intents[op].state
        == IntentState::CommitDurable
}

/// Whether the token is the claim on the intent, of the coordinator that is there.
pub open spec fn claims(v: CatalogView, op: OperationId, fence: FenceToken) -> bool {
    v.intents[op].owner_fence == Some(fence) && fence.epoch() == v.coordinator_epoch
}

/// Whether the actor drives the open intent: it is its own, it may write the file, and it has
/// the claim.
pub open spec fn drives(
    v: CatalogView,
    actor: PrincipalId,
    op: OperationId,
    fence: FenceToken,
) -> bool {
    &&& open(v, op)
    &&& v.intents[op].actor == actor
    &&& may_use(v, actor, v.intents[op].file, Capability::Write)
    &&& claims(v, op, fence)
}

/// Whether the intent's candidate has the receipt that was handed over and attached.
pub open spec fn attached(v: CatalogView, op: OperationId) -> bool {
    &&& v.intents[op].candidate is Some
    &&& v.handoffs.dom().contains(op)
    &&& v.handoffs[op].binding == DagBindingState::Bound
    &&& v.handoffs[op].receipt == v.intents[op].candidate->0.receipt
}

/// Whether a version of the file has the commit.
pub open spec fn has_commit(v: CatalogView, file: FileId, commit: CommitId) -> bool {
    exists|of: FileId, k: int|
        v.versions.dom().contains(of) && 0 <= k < v.versions[of].len() && (
        #[trigger] v.versions[of][k]).file == file && v.versions[of][k].commit_id == commit
}

/// Whether everything is as it was when the intent was begun.
pub open spec fn unchanged_since(v: CatalogView, op: OperationId) -> bool {
    let intent = v.intents[op];
    &&& v.principals[intent.actor].authz_epoch == intent.authz_epoch
    &&& v.files[intent.file].head == intent.expected_head
    &&& !has_commit(v, intent.file, intent.candidate->0.receipt.commit_id)
}

/// A publication for which everything is in order is carried out.
pub proof fn law_ready_intents_are_published(
    v: CatalogView,
    actor: PrincipalId,
    op: OperationId,
    fence: FenceToken,
)
    requires
        drives(v, actor, op, fence),
        recorded_as(v, op, v.intents[op]),
        attached(v, op),
        unchanged_since(v, op),
        v.intents[op].expected_head.generation < u64::MAX,
    ensures
        publish_outcome(v, actor, op, Some(fence)).0 is Ok,
{
}

/// A published version describes what it publishes: its commit, size and digest are those of
/// the receipt that was attached to the intent, its identifier is the one that was set aside,
/// and it stands one generation after the head that the intent was begun on.
pub proof fn law_published_version_describes_its_candidate(
    v: CatalogView,
    actor: PrincipalId,
    op: OperationId,
    fence: FenceToken,
)
    requires
        open(v, op),
        publish_outcome(v, actor, op, Some(fence)).0 is Ok,
    ensures
        ({
            let intent = v.intents[op];
            let receipt = v.handoffs[op].receipt;
            let version = publish_outcome(v, actor, op, Some(fence)).0->Ok_0;
            &&& intent.candidate is Some
            &&& intent.candidate->0.receipt == receipt
            &&& version.commit_id == receipt.commit_id
            &&& version.size == receipt.snapshot_size
            &&& version.digest == receipt.snapshot_digest
            &&& version.id == intent.candidate->0.version_id
            &&& version.file == intent.file
            &&& version.generation == intent.expected_head.generation + 1
            &&& version.parent_version_id == intent.expected_head.version_id
        }),
{
}

/// What a publication leaves behind: the version is the last of its file's and the head, the
/// intent is published and lets go of its claim and its pin, the operation has the version as
/// its result, the handoff is put aside, and nothing else changes.
pub proof fn law_publication_leaves(
    v: CatalogView,
    actor: PrincipalId,
    op: OperationId,
    fence: FenceToken,
)
    requires
        open(v, op),
        publish_outcome(v, actor, op, Some(fence)).0 is Ok,
    ensures
        ({
            let intent = v.intents[op];
            let file = intent.file;
            let (answer, w) = publish_outcome(v, actor, op, Some(fence));
            let version = answer->Ok_0;
            &&& w.versions.dom() == v.versions.dom().insert(file)
            &&& w.versions[file].len() > 0
            &&& w.versions[file].last() == version
            &&& w.versions[file].drop_last() == if v.versions.dom().contains(file) {
                v.versions[file]
            } else {
                Seq::empty()
            }
            &&& forall|other: FileId|
                other != file && v.versions.dom().contains(other) ==> #[trigger] w.versions[other]
                    == v.versions[other]
            &&& w.files.dom() == v.files.dom()
            &&& w.files[file].head == (Head {
                version_id: Some(version.id),
                generation: version.generation,
            })
            &&& w.files[file].id == v.files[file].id
            &&& w.files[file].collection == v.files[file].collection
            &&& w.files[file].name == v.files[file].name
            &&& forall|other: FileId|
                other != file && v.files.dom().contains(other) ==> #[trigger] w.files[other]
                    == v.files[other]
            &&& w.intents == v.intents.insert(
                op,
                IntentView {
                    state: IntentState::Published,
                    pinned: false,
                    owner_fence: None,
                    ..intent
                },
            )
            &&& w.operations[op].result == Some(OperationResult::Version(version))
            &&& w.operations[op].error == v.operations[op].error
            &&& w.operations.dom() == v.operations.dom()
            &&& w.handoffs == v.handoffs.insert(
                op,
                CatalogHandoff {
                    state: IndexState::Tombstoned,
                    has_roots: false,
                    ..v.handoffs[op]
                },
            )
            &&& w.principals == v.principals
            &&& w.collections == v.collections
            &&& w.memberships == v.memberships
            &&& w.retention_roots == v.retention_roots
            &&& w.reader_pins == v.reader_pins
            &&& w.next_version == v.next_version
            &&& w.coordinator_epoch == v.coordinator_epoch
        }),
{
    let file = v.intents[op].file;
    let (answer, w) = publish_outcome(v, actor, op, Some(fence));
    let before = if v.versions.dom().contains(file) {
        v.versions[file]
    } else {
        Seq::empty()
    };
    assert(w.versions[file] == before.push(answer->Ok_0));
    assert(before.push(answer->Ok_0).drop_last() =~= before);
    assert(w.files.dom() =~= v.files.dom());
    assert(w.operations.dom() =~= v.operations.dom());
}

/// A publication that is driven and recorded, and not carried out, is answered with the reason:
/// nothing attached yet, the authorization changed, the head moved, or the commit was published
/// before. For the last three the intent is given up.
pub proof fn law_unready_intents_are_answered(
    v: CatalogView,
    actor: PrincipalId,
    op: OperationId,
    fence: FenceToken,
)
    requires
        drives(v, actor, op, fence),
        recorded_as(v, op, v.intents[op]),
    ensures
        ({
            let intent = v.intents[op];
            let (answer, w) = publish_outcome(v, actor, op, Some(fence));
            let epoch = v.principals[actor].authz_epoch == intent.authz_epoch;
            let head = v.files[intent.file].head == intent.expected_head;
            let commit = intent.candidate->0.receipt.commit_id;
            &&& intent.candidate is None ==> answer == Err::<FileVersion, CatalogError>(
                CatalogError::InvalidIntent,
            ) && w == v
            &&& intent.candidate is Some && !attached(v, op) ==> answer == Err::<
                FileVersion,
                CatalogError,
            >(CatalogError::ReceiptNotDurable) && w == v
            &&& attached(v, op) && !epoch ==> answer == Err::<FileVersion, CatalogError>(
                CatalogError::AuthzEpochChanged,
            ) && w.intents[op].abort_reason == Some("authorization changed"@)
            &&& attached(v, op) && epoch && !head ==> answer == Err::<FileVersion, CatalogError>(
                CatalogError::HeadConflict,
            ) && w.intents[op].abort_reason == Some("head CAS failed"@)
            &&& attached(v, op) && epoch && head && has_commit(v, intent.file, commit) ==> answer
                == Err::<FileVersion, CatalogError>(CatalogError::DuplicateCommit)
                && w.intents[op].abort_reason == Some("duplicate Commit"@)
            &&& attached(v, op) && unchanged_since(v, op) && intent.expected_head.generation
                == u64::MAX ==> answer == Err::<FileVersion, CatalogError>(
                CatalogError::GenerationExhausted,
            ) && w == v
            &&& attached(v, op) && !unchanged_since(v, op) ==> w.intents[op].state
                == IntentState::Aborted && !w.intents[op].pinned && w.intents[op].owner_fence
                == None::<FenceToken> && w.operations[op].error == Some(answer->Err_0)
                && w.handoffs[op].state == IndexState::Tombstoned && !w.handoffs[op].has_roots
                && w.versions == v.versions && w.files == v.files
        }),
{
}

/// A publication is not carried out for another actor, without the claim, or for an intent
/// that is not there, and one that has ended is answered with how it ended.
pub proof fn law_publication_needs_its_driver(
    v: CatalogView,
    actor: PrincipalId,
    op: OperationId,
    fence: Option<FenceToken>,
)
    ensures
        publish_outcome(v, actor, op, fence).0 is Err ==> publish_outcome(v, actor, op, fence).1
            .versions == v.versions && publish_outcome(v, actor, op, fence).1.files == v.files,
        !v.intents.dom().contains(op) ==> publish_outcome(v, actor, op, fence) == (
            Err::<FileVersion, CatalogError>(CatalogError::NotFound),
            v,
        ),
        v.intents.dom().contains(op) && v.intents[op].actor != actor ==> publish_outcome(
            v,
            actor,
            op,
            fence,
        ) == (Err::<FileVersion, CatalogError>(CatalogError::PermissionDenied), v),
        open(v, op) && v.intents[op].actor == actor && may_use(
            v,
            actor,
            v.intents[op].file,
            Capability::Write,
        ) && recorded_as(v, op, v.intents[op]) && !(fence is Some && claims(v, op, fence->0))
            ==> publish_outcome(v, actor, op, fence) == (
            Err::<FileVersion, CatalogError>(CatalogError::FenceLost),
            v,
        ),
        v.intents.dom().contains(op) && v.intents[op].actor == actor && !may_use(
            v,
            actor,
            v.intents[op].file,
            Capability::Write,
        ) ==> publish_outcome(v, actor, op, fence).0 is Err && publish_outcome(v, actor, op, fence).1
            == v,
        v.intents.dom().contains(op) && v.intents[op].state == IntentState::Published
            && v.intents[op].actor == actor && may_use(
            v,
            actor,
            v.intents[op].file,
            Capability::Write,
        ) && recorded_as(v, op, v.intents[op]) && v.operations[op].error is None ==> (
        v.operations[op].result matches Some(OperationResult::Version(version)) ==> publish_outcome(
            v,
            actor,
            op,
            fence,
        ) == (Ok::<FileVersion, CatalogError>(version), v)),
{
}

/// A claim is one token of the coordinator that is there; any other has lost it.
pub proof fn law_claims_are_exact(v: CatalogView, op: OperationId, fence: FenceToken)
    ensures
        fence_problem(v, v.intents[op], fence) == if claims(v, op, fence) {
            None
        } else {
            Some(CatalogError::FenceLost)
        },
{
}

/// A new request to publish on the head that is there is taken in: the intent has its own
/// version identifier and claim, holds its pin, and remembers the authorization and the head.
pub proof fn law_publication_begins(
    v: CatalogView,
    actor: PrincipalId,
    file: FileId,
    op: OperationId,
    fence: Option<FenceToken>,
)
    requires
        !v.operations.dom().contains(op),
        may_use(v, actor, file, Capability::Write),
        v.next_version < u64::MAX,
        v.next_fence_nonce < u64::MAX,
        v.files[file].head.generation < u64::MAX,
    ensures
        ({
            let head = v.files[file].head;
            let (answer, w) = begin_publish_outcome(v, actor, file, op, head, fence);
            let intent = w.intents[op];
            &&& answer is Ok
            &&& answer->Ok_0 == intent.public()
            &&& w.intents.dom() == v.intents.dom().insert(op)
            &&& intent.operation_id == op
            &&& intent.actor == actor
            &&& intent.file == file
            &&& intent.state == IntentState::Preparing
            &&& intent.authz_epoch == v.principals[actor].authz_epoch
            &&& intent.expected_head == head
            &&& intent.base == if head.version_id is Some {
                Some(head)
            } else {
                None
            }
            &&& intent.version_id == VersionId(v.next_version)
            &&& w.next_version == v.next_version + 1
            &&& intent.candidate is None
            &&& intent.abort_reason is None
            &&& intent.pinned
            &&& intent.owner_fence is Some
            &&& intent.owner_fence->0.epoch() == v.coordinator_epoch
            &&& intent.owner_fence->0.number() == v.next_fence_nonce
            &&& w.next_fence_nonce == v.next_fence_nonce + 1
            &&& recorded_as(w, op, intent)
            &&& w.operations[op].result is None
            &&& w.operations[op].error is None
            &&& drives(w, actor, op, intent.owner_fence->0)
            &&& w.files == v.files
            &&& w.versions == v.versions
            &&& w.handoffs == v.handoffs
        }),
{
    broadcast use lemma_token;

    let head = v.files[file].head;
    let (answer, w) = begin_publish_outcome(v, actor, file, op, head, fence);
    assert(w.intents.dom() =~= v.intents.dom().insert(op));
}

/// Why a new request to publish is not taken in: the actor may not write the file, the head is
/// another, or numbers have run out. The failure is recorded with the request.
pub proof fn law_publication_does_not_begin(
    v: CatalogView,
    actor: PrincipalId,
    file: FileId,
    op: OperationId,
    expected: Head,
    fence: Option<FenceToken>,
)
    requires
        !v.operations.dom().contains(op),
    ensures
        ({
            let (answer, w) = begin_publish_outcome(v, actor, file, op, expected, fence);
            let allowed = may_use(v, actor, file, Capability::Write);
            let current = allowed && v.files[file].head == expected;
            let numbered = current && v.next_version < u64::MAX;
            &&& answer is Err ==> w.operations[op].error == Some(answer->Err_0) && w.intents
                == v.intents && w.files == v.files && w.versions == v.versions
            &&& !allowed ==> answer is Err && Some(answer->Err_0) == file_problem(
                v,
                actor,
                file,
                Capability::Write,
            )
            &&& allowed && !current ==> answer is Err && answer->Err_0 == CatalogError::HeadConflict
            &&& current && v.next_version == u64::MAX ==> answer is Err && answer->Err_0
                == CatalogError::IdExhausted
            &&& numbered && expected.generation == u64::MAX ==> answer is Err && answer->Err_0
                == CatalogError::GenerationExhausted
            &&& numbered && expected.generation < u64::MAX && v.next_fence_nonce == u64::MAX
                ==> answer is Err && answer->Err_0 == CatalogError::IdExhausted
        }),
{
}

/// A request that is known is answered from what is recorded: with the intent for the actor
/// who has the claim or once it has ended, with the conflict for another request, and with
/// the lost claim otherwise.
pub proof fn law_known_publication_is_answered(
    v: CatalogView,
    actor: PrincipalId,
    file: FileId,
    op: OperationId,
    expected: Head,
    fence: FenceToken,
)
    requires
        v.operations.dom().contains(op),
    ensures
        begin_publish_outcome(v, actor, file, op, expected, Some(fence)).1 == v,
        drives(v, actor, op, fence) && recorded_as(v, op, v.intents[op]) && v.intents[op].file
            == file && v.intents[op].expected_head == expected ==> begin_publish_outcome(
            v,
            actor,
            file,
            op,
            expected,
            Some(fence),
        ).0 is Ok && begin_publish_outcome(v, actor, file, op, expected, Some(fence)).0->Ok_0
            == v.intents[op].public(),
        open(v, op) && v.intents[op].actor == actor && may_use(
            v,
            actor,
            v.intents[op].file,
            Capability::Write,
        ) && recorded_as(v, op, v.intents[op]) && v.intents[op].file == file
            && v.intents[op].expected_head == expected && !claims(v, op, fence)
            ==> begin_publish_outcome(v, actor, file, op, expected, Some(fence)).0 is Err
            && begin_publish_outcome(v, actor, file, op, expected, Some(fence)).0->Err_0
            == CatalogError::FenceLost,
        open(v, op) && v.intents[op].actor == actor && may_use(
            v,
            actor,
            v.intents[op].file,
            Capability::Write,
        ) && v.operations[op].kind != OperationKind::Publish ==> begin_publish_outcome(
            v,
            actor,
            file,
            op,
            expected,
            Some(fence),
        ).0 is Err && begin_publish_outcome(v, actor, file, op, expected, Some(fence)).0->Err_0
            == CatalogError::OperationConflict,
{
}

/// A durable receipt of the operation is handed over by the one who drives the intent, once;
/// handing the same over again changes nothing, and another is refused.
pub proof fn law_receipts_are_handed_over(
    v: CatalogView,
    actor: PrincipalId,
    op: OperationId,
    fence: FenceToken,
    receipt: CommitReceipt,
)
    requires
        drives(v, actor, op, fence),
        receipt.operation_id == op,
    ensures
        ({
            let (answer, w) = register_outcome(v, actor, op, fence, receipt, true);
            &&& !v.handoffs.dom().contains(op) ==> answer == Ok::<CommitReceipt, CatalogError>(
                receipt,
            ) && w.handoffs.dom() == v.handoffs.dom().insert(op) && w.handoffs[op].receipt
                == receipt && w.handoffs[op].state == IndexState::Active
                && w.handoffs[op].has_roots && w.handoffs[op].binding
                == DagBindingState::ReceiptCommitted && w.intents == v.intents
            &&& v.handoffs.dom().contains(op) && v.handoffs[op].receipt == receipt ==> answer
                == Ok::<CommitReceipt, CatalogError>(receipt) && w == v
            &&& v.handoffs.dom().contains(op) && v.handoffs[op].receipt != receipt ==> answer
                == Err::<CommitReceipt, CatalogError>(CatalogError::OperationConflict) && w == v
            &&& register_outcome(v, actor, op, fence, receipt, false) == (
                Err::<CommitReceipt, CatalogError>(CatalogError::ReceiptNotDurable),
                v,
            )
        }),
{
    let (answer, w) = register_outcome(v, actor, op, fence, receipt, true);
    if !v.handoffs.dom().contains(op) {
        assert(w.handoffs.dom() =~= v.handoffs.dom().insert(op));
    }
}

/// A receipt is not handed over for another operation, by another actor, without the claim,
/// or for an intent that has ended.
pub proof fn law_receipts_are_refused(
    v: CatalogView,
    actor: PrincipalId,
    op: OperationId,
    fence: FenceToken,
    receipt: CommitReceipt,
    durable: bool,
)
    ensures
        ({
            let (answer, w) = register_outcome(v, actor, op, fence, receipt, durable);
            let there = v.intents.dom().contains(op);
            let own = there && v.intents[op].actor == actor && may_use(
                v,
                actor,
                v.intents[op].file,
                Capability::Write,
            );
            &&& answer is Err ==> w == v
            &&& !there ==> answer is Err && answer->Err_0 == CatalogError::NotFound
            &&& there && v.intents[op].actor != actor ==> answer is Err && answer->Err_0
                == CatalogError::PermissionDenied
            &&& own && !claims(v, op, fence) ==> answer is Err && answer->Err_0
                == CatalogError::FenceLost
            &&& own && claims(v, op, fence) && !open(v, op) ==> answer is Err && answer->Err_0
                == CatalogError::InvalidIntent
            &&& drives(v, actor, op, fence) && receipt.operation_id != op ==> answer is Err
                && answer->Err_0 == CatalogError::OperationConflict
        }),
{
}

/// The first of the versions with an identifier is there where one has it, and has it.
pub proof fn law_versions_are_found(versions: Seq<FileVersion>, id: VersionId)
    ensures
        version_named(versions, id) is Some <==> exists|k: int|
            0 <= k < versions.len() && (#[trigger] versions[k]).id == id,
        version_named(versions, id) matches Some(found) ==> found.id == id && exists|k: int|
            0 <= k < versions.len() && #[trigger] versions[k] == found,
    decreases versions.len(),
{
    if versions.len() > 0 && versions[0].id != id {
        let rest = versions.drop_first();
        law_versions_are_found(rest, id);
        assert forall|k: int| 0 <= k < rest.len() implies #[trigger] rest[k] == versions[k + 1] by {
        }
        if exists|k: int| 0 <= k < versions.len() && (#[trigger] versions[k]).id == id {
            let k = choose|k: int| 0 <= k < versions.len() && (#[trigger] versions[k]).id == id;
            assert(rest[k - 1].id == id);
        }
        if version_named(rest, id) is Some {
            let k = choose|k: int|
                0 <= k < rest.len() && #[trigger] rest[k] == version_named(rest, id)->0;
            assert(versions[k + 1] == version_named(rest, id)->0);
        }
    }
}

/// Whether the receipt's parent is what the intent was begun on: no commit where the file had
/// no version, or the commit of the version that was its head.
pub open spec fn continues_base(
    v: CatalogView,
    intent: IntentView,
    receipt: CommitReceipt,
) -> bool {
    match intent.base {
        None => receipt.parent is None,
        Some(head) => match head.version_id {
            None => receipt.parent is None,
            Some(id) => v.versions.dom().contains(intent.file) && exists|k: int|
                0 <= k < v.versions[intent.file].len() && (
                #[trigger] v.versions[intent.file][k]).id == id && receipt.parent == Some(
                    v.versions[intent.file][k].commit_id,
                ) && forall|j: int|
                    0 <= j < k ==> (#[trigger] v.versions[intent.file][j]).id != id,
        },
    }
}

pub proof fn lemma_first_named(versions: Seq<FileVersion>, id: VersionId, k: int)
    requires
        0 <= k < versions.len(),
        versions[k].id == id,
        forall|j: int| 0 <= j < k ==> (#[trigger] versions[j]).id != id,
    ensures
        version_named(versions, id) == Some(versions[k]),
    decreases versions.len(),
{
    if k > 0 {
        assert(versions[0].id != id);
        let rest = versions.drop_first();
        assert forall|j: int| 0 <= j < k - 1 implies (#[trigger] rest[j]).id != id by {
            assert(rest[j] == versions[j + 1]);
        }
        assert(rest[k - 1] == versions[k]);
        lemma_first_named(rest, id, k - 1);
    }
}

/// The receipt that was handed over is attached to the intent where it continues what the
/// intent was begun on.
pub proof fn law_receipts_are_attached(
    v: CatalogView,
    actor: PrincipalId,
    op: OperationId,
    fence: FenceToken,
)
    requires
        drives(v, actor, op, fence),
        v.handoffs.dom().contains(op),
        continues_base(v, v.intents[op], v.handoffs[op].receipt),
    ensures
        ({
            let (answer, w) = bind_outcome(v, actor, op, fence);
            let intent = w.intents[op];
            &&& answer is Ok
            &&& answer->Ok_0 == intent.public()
            &&& intent.state == IntentState::CommitDurable
            &&& intent.candidate is Some
            &&& intent.candidate->0.receipt == v.handoffs[op].receipt
            &&& intent.candidate->0.version_id == v.intents[op].version_id
            &&& intent == (IntentView {
                state: intent.state,
                candidate: intent.candidate,
                ..v.intents[op]
            })
            &&& w.handoffs[op] == (CatalogHandoff {
                binding: DagBindingState::Bound,
                ..v.handoffs[op]
            })
            &&& attached(w, op)
            &&& drives(w, actor, op, fence)
            &&& w.files == v.files
            &&& w.versions == v.versions
            &&& w.operations == v.operations
            &&& w.principals == v.principals
        }),
{
    let intent = v.intents[op];
    if let Some(head) = intent.base {
        if let Some(id) = head.version_id {
            let list = v.versions[intent.file];
            let k = choose|k: int|
                0 <= k < list.len() && (#[trigger] list[k]).id == id
                    && v.handoffs[op].receipt.parent == Some(list[k].commit_id) && forall|j: int|
                    0 <= j < k ==> (#[trigger] list[j]).id != id;
            lemma_first_named(list, id, k);
        }
    }
}

/// A receipt that does not continue what the intent was begun on ends the intent: with another
/// parent where there was nothing, or without the commit of the version that was the head.
pub proof fn law_strange_receipts_end_the_intent(
    v: CatalogView,
    actor: PrincipalId,
    op: OperationId,
    fence: FenceToken,
    k: int,
)
    requires
        drives(v, actor, op, fence),
        v.handoffs.dom().contains(op),
        v.intents[op].base is None ==> v.handoffs[op].receipt.parent is Some,
        v.intents[op].base matches Some(head) ==> (head.version_id matches Some(id)
            && v.versions.dom().contains(v.intents[op].file) && 0 <= k
            < v.versions[v.intents[op].file].len() && v.versions[v.intents[op].file][k].id == id && (
        forall|j: int| 0 <= j < k ==> (#[trigger] v.versions[v.intents[op].file][j]).id != id)
            && v.handoffs[op].receipt.parent != Some(
            v.versions[v.intents[op].file][k].commit_id,
        )),
    ensures
        ({
            let (answer, w) = bind_outcome(v, actor, op, fence);
            &&& answer is Err
            &&& answer->Err_0 == CatalogError::CandidateMismatch
            &&& w.intents[op].state == IntentState::Aborted
            &&& w.intents[op].abort_reason == Some("candidate parent mismatch"@)
            &&& w.intents[op].candidate == v.intents[op].candidate
            &&& w.files == v.files
            &&& w.versions == v.versions
        }),
{
    if let Some(head) = v.intents[op].base {
        lemma_first_named(v.versions[v.intents[op].file], head.version_id->0, k);
    }
}

/// Nothing is attached without an intent, by another actor, without the claim, or before a
/// receipt was handed over.
pub proof fn law_nothing_is_attached(
    v: CatalogView,
    actor: PrincipalId,
    op: OperationId,
    fence: FenceToken,
)
    ensures
        ({
            let (answer, w) = bind_outcome(v, actor, op, fence);
            let there = v.intents.dom().contains(op);
            let own = there && v.intents[op].actor == actor && may_use(
                v,
                actor,
                v.intents[op].file,
                Capability::Write,
            );
            &&& !there ==> answer is Err && answer->Err_0 == CatalogError::NotFound && w == v
            &&& there && v.intents[op].actor != actor ==> answer is Err && answer->Err_0
                == CatalogError::PermissionDenied && w == v
            &&& own && !claims(v, op, fence) ==> answer is Err && answer->Err_0
                == CatalogError::FenceLost && w == v
            &&& drives(v, actor, op, fence) && !v.handoffs.dom().contains(op) ==> answer is Err
                && answer->Err_0 == CatalogError::NotFound && w == v
        }),
{
}

/// The one who drives an intent gives it up: it is aborted without claim or pin, its operation
/// ends so, its handoff is put aside, and no version or head changes. Nobody else gives it up.
pub proof fn law_intents_are_given_up(
    v: CatalogView,
    actor: PrincipalId,
    op: OperationId,
    fence: FenceToken,
)
    ensures
        drives(v, actor, op, fence) && recorded_as(v, op, v.intents[op]) ==> {
            let (answer, w) = abort_outcome(v, op, actor, Some(fence));
            &&& answer is Ok
            &&& answer->Ok_0 == w.intents[op].public()
            &&& w.intents[op] == (IntentView {
                state: IntentState::Aborted,
                abort_reason: Some("caller abort"@),
                owner_fence: None,
                pinned: false,
                ..v.intents[op]
            })
            &&& w.operations[op].result == Some(OperationResult::Aborted)
            &&& w.operations[op].error == v.operations[op].error
            &&& v.handoffs.dom().contains(op) ==> w.handoffs[op].state == IndexState::Tombstoned
                && !w.handoffs[op].has_roots && w.handoffs[op].receipt == v.handoffs[op].receipt
            &&& w.files == v.files
            &&& w.versions == v.versions
        },
        open(v, op) && v.intents[op].actor == actor && may_use(
            v,
            actor,
            v.intents[op].file,
            Capability::Write,
        ) && recorded_as(v, op, v.intents[op]) && !claims(v, op, fence) ==> abort_outcome(
            v,
            op,
            actor,
            Some(fence),
        ).0 is Err && abort_outcome(v, op, actor, Some(fence)).0->Err_0 == CatalogError::FenceLost
            && abort_outcome(v, op, actor, Some(fence)).1 == v,
        v.intents.dom().contains(op) && v.intents[op].actor != actor ==> abort_outcome(
            v,
            op,
            actor,
            Some(fence),
        ).0 is Err && abort_outcome(v, op, actor, Some(fence)).0->Err_0
            == CatalogError::PermissionDenied && abort_outcome(v, op, actor, Some(fence)).1 == v,
        !v.intents.dom().contains(op) ==> abort_outcome(v, op, actor, Some(fence)).0 is Err
            && abort_outcome(v, op, actor, Some(fence)).0->Err_0 == CatalogError::NotFound
            && abort_outcome(v, op, actor, Some(fence)).1 == v,
{
}

/// An open intent that nobody has a claim on is claimed by the coordinator that is there, with
/// a number that was not used before; one that is claimed, or has ended, is not.
pub proof fn law_unclaimed_intents_are_claimed(v: CatalogView, op: OperationId)
    ensures
        open(v, op) && v.intents[op].owner_fence is None && v.next_fence_nonce < u64::MAX ==> {
            let (answer, w) = claim_outcome(v, op);
            &&& answer is Ok
            &&& answer->Ok_0.epoch() == v.coordinator_epoch
            &&& answer->Ok_0.number() == v.next_fence_nonce
            &&& w.next_fence_nonce == v.next_fence_nonce + 1
            &&& claims(w, op, answer->Ok_0)
            &&& w.intents == v.intents.insert(
                op,
                IntentView { owner_fence: Some(answer->Ok_0), ..v.intents[op] },
            )
        },
        open(v, op) && v.intents[op].owner_fence is Some ==> claim_outcome(v, op) == (
            Err::<FenceToken, CatalogError>(CatalogError::FenceLost),
            v,
        ),
        open(v, op) && v.intents[op].owner_fence is None && v.next_fence_nonce == u64::MAX
            ==> claim_outcome(v, op) == (
            Err::<FenceToken, CatalogError>(CatalogError::IdExhausted),
            v,
        ),
        v.intents.dom().contains(op) && !open(v, op) ==> claim_outcome(v, op) == (
            Err::<FenceToken, CatalogError>(CatalogError::InvalidIntent),
            v,
        ),
        !v.intents.dom().contains(op) ==> claim_outcome(v, op) == (
            Err::<FenceToken, CatalogError>(CatalogError::NotFound),
            v,
        ),
{
    broadcast use lemma_token;

}

/// Recovery publishes an intent that nobody has a claim on where the graph still has its
/// receipt, the receipt continues what it was begun on, and nothing has changed since.
#[verifier::spinoff_prover]
pub proof fn law_recovery_publishes(v: CatalogView, receipt: CommitReceipt, op: OperationId)
    requires
        open(v, op),
        v.intents[op].owner_fence is None,
        v.next_fence_nonce < u64::MAX,
        may_use(v, v.intents[op].actor, v.intents[op].file, Capability::Write),
        recorded_as(v, op, v.intents[op]),
        v.handoffs.dom().contains(op) ==> v.handoffs[op].receipt == receipt,
        continues_base(v, v.intents[op], receipt),
        v.principals[v.intents[op].actor].authz_epoch == v.intents[op].authz_epoch,
        v.files[v.intents[op].file].head == v.intents[op].expected_head,
        !has_commit(v, v.intents[op].file, receipt.commit_id),
        v.intents[op].expected_head.generation < u64::MAX,
    ensures
        ({
            let (answer, w) = recover_outcome(v, Some(receipt), op);
            let version = w.versions[v.intents[op].file].last();
            &&& answer is Ok
            &&& answer->Ok_0 == w.intents[op].public()
            &&& w.intents[op].state == IntentState::Published
            &&& version.id == v.intents[op].version_id
            &&& version.commit_id == receipt.commit_id
            &&& version.size == receipt.snapshot_size
            &&& version.digest == receipt.snapshot_digest
            &&& w.files[v.intents[op].file].head.version_id == Some(version.id)
            &&& w.operations[op].result == Some(OperationResult::Version(version))
        }),
{
    let actor = v.intents[op].actor;
    let file = v.intents[op].file;
    law_unclaimed_intents_are_claimed(v, op);
    let claim = claim_outcome(v, op);
    let fence = claim.0->Ok_0;
    let held = if claim.1.handoffs.dom().contains(op) {
        claim.1
    } else {
        register_outcome(claim.1, actor, op, fence, receipt, true).1
    };
    let list = v.versions[file];
    if claim.1.handoffs.dom().contains(op) {
        assert(held.handoffs[op].receipt == receipt);
    } else if receipt.operation_id == op {
        law_receipts_are_handed_over(claim.1, actor, op, fence, receipt);
    }
    let w0 = CatalogView {
        handoffs: if v.handoffs.dom().contains(op) {
            v.handoffs
        } else {
            v.handoffs.insert(
                op,
                CatalogHandoff {
                    receipt,
                    state: IndexState::Active,
                    has_roots: true,
                    binding: DagBindingState::ReceiptCommitted,
                },
            )
        },
        ..claim.1
    };
    assert(w0.handoffs[op].receipt == receipt);
    assert(continues_base(w0, w0.intents[op], receipt));
    assert(drives(w0, actor, op, fence));
    law_receipts_are_attached(w0, actor, op, fence);
    let bound = bind_outcome(w0, actor, op, fence).1;
    assert(recorded_as(bound, op, bound.intents[op]));
    assert(unchanged_since(bound, op));
    law_ready_intents_are_published(bound, actor, op, fence);
    law_published_version_describes_its_candidate(bound, actor, op, fence);
    law_publication_leaves(bound, actor, op, fence);
    assert(resume_outcome(claim.1, op, fence, receipt).1 == publish_outcome(
        bound,
        actor,
        op,
        Some(fence),
    ).1);
}

/// Recovery gives an unclaimed intent up where the graph has no receipt of it, and shows an
/// intent that has ended as it is.
pub proof fn law_recovery_without_a_receipt(
    v: CatalogView,
    receipt: Option<CommitReceipt>,
    op: OperationId,
)
    ensures
        open(v, op) && v.intents[op].owner_fence is None && v.next_fence_nonce < u64::MAX ==> {
            let (answer, w) = recover_outcome(v, None, op);
            &&& answer is Ok
            &&& answer->Ok_0 == w.intents[op].public()
            &&& w.intents[op].state == IntentState::Aborted
            &&& w.intents[op].abort_reason == Some(
                "DAG operation binding missing during recovery"@,
            )
            &&& w.operations.dom().contains(op) ==> w.operations[op].error == Some(
                CatalogError::InvalidIntent,
            )
            &&& w.files == v.files
            &&& w.versions == v.versions
        },
        v.intents.dom().contains(op) && !open(v, op) ==> recover_outcome(v, receipt, op).0 is Ok
            && recover_outcome(v, receipt, op).0->Ok_0 == v.intents[op].public()
            && recover_outcome(v, receipt, op).1 == v,
        !v.intents.dom().contains(op) ==> recover_outcome(v, receipt, op).0 is Err
            && recover_outcome(v, receipt, op).0->Err_0 == CatalogError::NotFound
            && recover_outcome(v, receipt, op).1 == v,
        open(v, op) && v.intents[op].owner_fence is Some ==> recover_outcome(v, receipt, op).0 is Err
            && recover_outcome(v, receipt, op).0->Err_0 == CatalogError::FenceLost
            && recover_outcome(v, receipt, op).1 == v,
{
}

/// Recovery's giving up of an intent takes the claim, records the reason it gives, and leaves
/// an intent that has ended as it is.
pub proof fn law_recovery_gives_up(
    v: CatalogView,
    op: OperationId,
    fence: FenceToken,
    reason: Seq<char>,
)
    ensures
        open(v, op) && claims(v, op, fence) ==> {
            let (answer, w) = recovery_abort_outcome(v, op, fence, reason);
            &&& answer is Ok
            &&& answer->Ok_0 == w.intents[op].public()
            &&& w.intents[op].state == IntentState::Aborted
            &&& w.intents[op].abort_reason == Some(reason)
            &&& w.operations.dom().contains(op) ==> w.operations[op].error == Some(
                CatalogError::InvalidIntent,
            )
        },
        open(v, op) && !claims(v, op, fence) ==> recovery_abort_outcome(v, op, fence, reason).0
            is Err && recovery_abort_outcome(v, op, fence, reason).0->Err_0
            == CatalogError::FenceLost && recovery_abort_outcome(v, op, fence, reason).1 == v,
        v.intents.dom().contains(op) && !open(v, op) ==> recovery_abort_outcome(
            v,
            op,
            fence,
            reason,
        ).0 is Ok && recovery_abort_outcome(v, op, fence, reason).1 == v,
{
}

/// The catalog vouches for the end of an operation whose intent has ended and whose handoff was
/// attached and put aside, and for no other.
pub proof fn law_ends_are_vouched_for(v: CatalogView, op: OperationId)
    ensures
        permit_problem(v, op) is None <==> v.intents.dom().contains(op) && !open(v, op)
            && v.handoffs.dom().contains(op) && v.handoffs[op].state == IndexState::Tombstoned
            && v.handoffs[op].binding == DagBindingState::Bound,
        permit_problem(v, op) == Some(CatalogError::NotFound) <==> !v.intents.dom().contains(op)
            || !v.handoffs.dom().contains(op),
{
}

/// After a restart the coordinator is the next one, no intent is claimed, and nothing else has
/// changed.
pub proof fn law_restart_frees_the_intents(v: CatalogView, op: OperationId)
    requires
        v.coordinator_epoch < u64::MAX,
    ensures
        reopened(v).coordinator_epoch == v.coordinator_epoch + 1,
        reopened(v).intents.dom() == v.intents.dom(),
        v.intents.dom().contains(op) ==> reopened(v).intents[op] == (IntentView {
            owner_fence: None,
            ..v.intents[op]
        }),
        reopened(v).versions == v.versions,
        reopened(v).files == v.files,
        reopened(v).operations == v.operations,
        reopened(v).handoffs == v.handoffs,
        reopened(v).next_fence_nonce == v.next_fence_nonce,
        reopened(v).next_version == v.next_version,
        reopened(v).principals == v.principals,
        reopened(v).memberships == v.memberships,
        reopened(v).reader_pins == v.reader_pins,
        reopened(v).retention_roots == v.retention_roots,
{
    assert(reopened(v).intents.dom() =~= v.intents.dom());
}

/// What is said of an intent, a file or a collection is said of its own fields.
pub proof fn law_views_show_their_fields(
    intent: PublishIntent,
    public: PublicPublishIntent,
    file: File,
    collection: Collection,
)
    ensures
        intent@.operation_id == intent.operation_id,
        intent@.actor == intent.actor,
        intent@.file == intent.file,
        intent@.state == intent.state,
        intent@.authz_epoch == intent.authz_epoch,
        intent@.expected_head == intent.expected_head,
        intent@.base == intent.base,
        intent@.version_id == intent.version_id,
        intent@.candidate == intent.candidate,
        intent@.owner_fence == intent.owner_fence,
        intent@.pinned == intent.pinned,
        intent@.abort_reason is Some == intent.abort_reason is Some,
        intent.abort_reason matches Some(reason) ==> intent@.abort_reason == Some(reason@),
        intent@.public().operation_id == intent.operation_id,
        intent@.public().actor == intent.actor,
        intent@.public().file == intent.file,
        intent@.public().state == intent.state,
        intent@.public().expected_head == intent.expected_head,
        intent@.public().base == intent.base,
        intent@.public().version_id == intent.version_id,
        intent@.public().abort_reason == intent@.abort_reason,
        intent@.public().pinned == intent.pinned,
        public@.operation_id == public.operation_id,
        public@.actor == public.actor,
        public@.file == public.file,
        public@.state == public.state,
        public@.expected_head == public.expected_head,
        public@.base == public.base,
        public@.version_id == public.version_id,
        public@.pinned == public.pinned,
        public.abort_reason matches Some(reason) ==> public@.abort_reason == Some(reason@),
        file@.id == file.id,
        file@.collection == file.collection,
        file@.name == file.name@,
        file@.head == file.head,
        collection@.id == collection.id,
        collection@.owner == collection.owner,
        collection@.name == collection.name@,
{
}

/// Recovery that cannot publish says why: the authorization changed, it was denied, or another
/// reason; the intent is given up with the reason and the error.
pub proof fn law_recovery_says_why(v: CatalogView, receipt: CommitReceipt, op: OperationId)
    ensures
        open(v, op) && v.intents[op].owner_fence is None && v.next_fence_nonce < u64::MAX && placed(
            v,
            v.intents[op].file,
        ) && active(v, v.intents[op].actor) && active(
            v,
            v.collections[v.files[v.intents[op].file].collection].owner,
        ) && !may_use(v, v.intents[op].actor, v.intents[op].file, Capability::Write) ==> {
            let (answer, w) = recover_outcome(v, Some(receipt), op);
            &&& answer is Err
            &&& answer->Err_0 == CatalogError::PermissionDenied
            &&& w.intents[op].state == IntentState::Aborted
            &&& w.intents[op].abort_reason == Some("authorization denied during recovery"@)
            &&& w.versions == v.versions
            &&& w.files == v.files
        },
        recovery_reason(CatalogError::AuthzEpochChanged)
            == "authorization changed during recovery"@,
        recovery_reason(CatalogError::PermissionDenied) == "authorization denied during recovery"@,
        recovery_reason(CatalogError::PrincipalDisabled) == "authorization denied during recovery"@,
        recovery_reason(CatalogError::HeadConflict) == "recovery could not safely publish"@,
        recovery_reason(CatalogError::CandidateMismatch) == "recovery could not safely publish"@,
        recovery_reason(CatalogError::DuplicateCommit) == "recovery could not safely publish"@,
        recovery_reason(CatalogError::OperationConflict) == "recovery could not safely publish"@,
        recovery_reason(CatalogError::NotFound) == "recovery could not safely publish"@,
{
    broadcast use lemma_token;

}

/// A publication that has ended is answered with how it ended, with or without a claim: beginning
/// it again or giving it up shows the intent, and publishing it again gives its version or its
/// error. Nothing changes.
pub proof fn law_ended_publications_are_answered(
    v: CatalogView,
    actor: PrincipalId,
    op: OperationId,
    fence: Option<FenceToken>,
)
    requires
        v.intents.dom().contains(op),
        v.intents[op].state == IntentState::Published || v.intents[op].state
            == IntentState::Aborted,
        v.intents[op].actor == actor,
        may_use(v, actor, v.intents[op].file, Capability::Write),
        recorded_as(v, op, v.intents[op]),
        v.operations[op].result is Some || v.operations[op].error is Some,
    ensures
        ({
            let intent = v.intents[op];
            let again = begin_publish_outcome(
                v,
                actor,
                intent.file,
                op,
                intent.expected_head,
                fence,
            );
            let abort = abort_outcome(v, op, actor, fence);
            let publish = publish_outcome(v, actor, op, fence);
            &&& again.0 is Ok && again.0->Ok_0 == intent.public() && again.1 == v
            &&& abort.0 is Ok && abort.0->Ok_0 == intent.public() && abort.1 == v
            &&& publish.1 == v
            &&& v.operations[op].error matches Some(error) ==> publish.0 == Err::<
                FileVersion,
                CatalogError,
            >(error)
            &&& v.operations[op].error is None && v.operations[op].result == Some(
                OperationResult::Aborted,
            ) ==> publish.0 == Err::<FileVersion, CatalogError>(CatalogError::InvalidIntent)
        }),
{
}

/// Recovery does not publish another receipt than the one that was handed over: the intent is
/// given up.
pub proof fn law_recovery_keeps_to_the_receipt(
    v: CatalogView,
    receipt: CommitReceipt,
    op: OperationId,
)
    requires
        open(v, op),
        v.intents[op].owner_fence is None,
        v.next_fence_nonce < u64::MAX,
        may_use(v, v.intents[op].actor, v.intents[op].file, Capability::Write),
        v.handoffs.dom().contains(op),
        v.handoffs[op].receipt != receipt,
    ensures
        ({
            let (answer, w) = recover_outcome(v, Some(receipt), op);
            &&& answer is Err
            &&& answer->Err_0 == CatalogError::OperationConflict
            &&& w.intents[op].state == IntentState::Aborted
            &&& w.intents[op].abort_reason == Some("recovery could not safely publish"@)
            &&& w.versions == v.versions
            &&& w.files == v.files
        }),
{
    broadcast use lemma_token;

}

} // verus!
