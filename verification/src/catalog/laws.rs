//! What holds of the catalog whatever is asked of it.
use vstd::prelude::*;

use crate::catalog::claims::{lemma_requests_keep_registered, registered};
use crate::catalog::dag_reach::reaches;
use crate::catalog::graph::Graph;
use crate::catalog::ids::{
    CollectionId, CommitId, CommitReceipt, FileId, OperationId, PrincipalId, VersionId,
};
use crate::catalog::rules::{
    abort_outcome, active_receipt, actor_problem, begin_publish_outcome, bind_outcome, bumped,
    claim_outcome, create_collection_outcome, create_file_outcome, fenced, fresh, given_up, is_root,
    membership_problem, pins, publish_outcome, publish_request, reader_problem, recover_all, recover_outcome,
    recovery_abort_outcome, reclaimable, register_outcome, reopened, resume_outcome, same_request,
    state_outcome, unpinned, versions_of, Bindings, CatalogView,
};
use crate::catalog::types::{
    Capability, CatalogError, FenceToken, FileVersion, Head, IntentState, IntentView, MemberKey,
    OperationKind, OperationRecord, OperationResult, Principal, PrincipalKind, PrincipalState,
};

verus! {

/// What can be asked of the catalog.
#[allow(inconsistent_fields)]
pub enum Request {
    CreatePrincipal { kind: PrincipalKind },
    AllocateOperation,
    Grant { actor: PrincipalId, organization: PrincipalId, member: PrincipalId, to: Capability },
    Revoke { actor: PrincipalId, organization: PrincipalId, member: PrincipalId },
    SetState { id: PrincipalId, state: PrincipalState },
    CreateCollection { actor: PrincipalId, owner: PrincipalId, name: Seq<char>, op: OperationId },
    CreateFile { actor: PrincipalId, collection: CollectionId, name: Seq<char>, op: OperationId },
    Begin {
        actor: PrincipalId,
        file: FileId,
        op: OperationId,
        expected: Head,
        fence: Option<FenceToken>,
    },
    Register {
        actor: PrincipalId,
        op: OperationId,
        fence: FenceToken,
        receipt: CommitReceipt,
        durable: bool,
    },
    Bind { actor: PrincipalId, op: OperationId, fence: FenceToken },
    Publish { actor: PrincipalId, op: OperationId, fence: Option<FenceToken> },
    Abort { op: OperationId, actor: PrincipalId, fence: Option<FenceToken> },
    RecoveryAbort { op: OperationId, fence: FenceToken, reason: Seq<char> },
    Recover { binding: Option<CommitReceipt>, op: OperationId },
    Pin { actor: PrincipalId, file: FileId, version: VersionId, commit: CommitId },
    Unpin { commit: CommitId },
    Reopen,
}

/// The catalog after a request.
pub open spec fn after(v: CatalogView, request: Request) -> CatalogView {
    match request {
        Request::CreatePrincipal { kind } => if v.next_principal == u64::MAX {
            v
        } else {
            let id = PrincipalId(v.next_principal);
            CatalogView {
                next_principal: (v.next_principal + 1) as u64,
                principals: v.principals.insert(
                    id,
                    Principal { id, kind, state: PrincipalState::Active, authz_epoch: 0 },
                ),
                ..v
            }
        },
        Request::AllocateOperation => if v.next_operation == u64::MAX {
            v
        } else {
            CatalogView { next_operation: (v.next_operation + 1) as u64, ..v }
        },
        Request::Grant { actor, organization, member, to } => if membership_problem(
            v,
            actor,
            organization,
            member,
        ) is Some {
            v
        } else {
            CatalogView {
                memberships: v.memberships.insert(MemberKey { organization, member }, to),
                ..bumped(v, organization, member)
            }
        },
        Request::Revoke { actor, organization, member } => if membership_problem(
            v,
            actor,
            organization,
            member,
        ) is Some {
            v
        } else {
            CatalogView {
                memberships: v.memberships.remove(MemberKey { organization, member }),
                ..bumped(v, organization, member)
            }
        },
        Request::SetState { id, state } => state_outcome(v, id, state).1,
        Request::CreateCollection { actor, owner, name, op } => create_collection_outcome(
            v,
            actor,
            owner,
            name,
            op,
        ).1,
        Request::CreateFile { actor, collection, name, op } => create_file_outcome(
            v,
            actor,
            collection,
            name,
            op,
        ).1,
        Request::Begin { actor, file, op, expected, fence } => begin_publish_outcome(
            v,
            actor,
            file,
            op,
            expected,
            fence,
        ).1,
        Request::Register { actor, op, fence, receipt, durable } => register_outcome(
            v,
            actor,
            op,
            fence,
            receipt,
            durable,
        ).1,
        Request::Bind { actor, op, fence } => bind_outcome(v, actor, op, fence).1,
        Request::Publish { actor, op, fence } => publish_outcome(v, actor, op, fence).1,
        Request::Abort { op, actor, fence } => abort_outcome(v, op, actor, fence).1,
        Request::RecoveryAbort { op, fence, reason } => recovery_abort_outcome(
            v,
            op,
            fence,
            reason,
        ).1,
        Request::Recover { binding, op } => recover_outcome(v, binding, op).1,
        Request::Pin { actor, file, version, commit } => if reader_problem(
            v,
            actor,
            file,
            Some(version),
            Some(commit),
        ) is Some || pins(v, commit) == u64::MAX {
            v
        } else {
            CatalogView {
                reader_pins: v.reader_pins.insert(commit, (pins(v, commit) + 1) as u64),
                ..v
            }
        },
        Request::Unpin { commit } => unpinned(v, commit),
        Request::Reopen => if v.coordinator_epoch == u64::MAX {
            v
        } else {
            reopened(v)
        },
    }
}

/// Identifiers are handed out in order: none that is in use is still to come.
pub open spec fn numbered(v: CatalogView) -> bool {
    &&& forall|id: PrincipalId| #[trigger]
        v.principals.dom().contains(id) ==> id.0 < v.next_principal
    &&& forall|id: CollectionId| #[trigger]
        v.collections.dom().contains(id) ==> id.0 < v.next_collection
    &&& forall|id: FileId| #[trigger] v.files.dom().contains(id) ==> id.0 < v.next_file
}

/// No owner has two collections of one name, and no collection two files of one name.
pub open spec fn names_unique(v: CatalogView) -> bool {
    &&& forall|a: CollectionId, b: CollectionId|
        #![trigger v.collections.dom().contains(a), v.collections.dom().contains(b)]
        v.collections.dom().contains(a) && v.collections.dom().contains(b)
            && v.collections[a].owner == v.collections[b].owner && v.collections[a].name
            == v.collections[b].name ==> a == b
    &&& forall|a: FileId, b: FileId|
        #![trigger v.files.dom().contains(a), v.files.dom().contains(b)]
        v.files.dom().contains(a) && v.files.dom().contains(b) && v.files[a].collection
            == v.files[b].collection && v.files[a].name == v.files[b].name ==> a == b
}

/// The version before the `k`th.
pub open spec fn version_before(list: Seq<FileVersion>, k: int) -> Option<VersionId> {
    if k <= 0 {
        None
    } else {
        Some(list[k - 1].id)
    }
}

/// The versions of a file form one line that ends at its head.
pub open spec fn linear(file: FileId, head: Head, list: Seq<FileVersion>) -> bool {
    &&& head.generation == list.len()
    &&& head.version_id == version_before(list, list.len() as int)
    &&& forall|k: int|
        0 <= k < list.len() ==> (#[trigger] list[k]).file == file && list[k].generation == k + 1
            && list[k].parent_version_id == version_before(list, k)
}

/// Every file has one line of versions, and only files have versions.
pub open spec fn histories_linear(v: CatalogView) -> bool {
    &&& forall|file: FileId| #[trigger]
        v.files.dom().contains(file) ==> linear(file, v.files[file].head, versions_of(v, file))
    &&& forall|file: FileId| #[trigger]
        v.versions.dom().contains(file) ==> v.files.dom().contains(file)
}

/// Whether a record is that of the intent, with an end if and only if the intent has
/// ended.
pub open spec fn record_fits(
    intent: IntentView,
    op: OperationId,
    record: OperationRecord,
) -> bool {
    &&& record.operation_id == op
    &&& same_request(
        record,
        intent.actor,
        OperationKind::Publish,
        publish_request(intent.actor, intent.file, intent.expected_head),
    )
    &&& match intent.state {
        IntentState::Preparing => record.result is None && record.error is None,
        IntentState::CommitDurable => record.result is None && record.error is None
            && intent.candidate is Some,
        IntentState::Published => record.error is None && record.result matches Some(
            OperationResult::Version(_),
        ),
        IntentState::Aborted => record.error is Some || record.result == Some(
            OperationResult::Aborted,
        ),
    }
}

/// Every intent has its record, and an ended intent has no claim and no pin.
pub open spec fn intents_recorded(v: CatalogView) -> bool {
    forall|op: OperationId| #[trigger]
        v.intents.dom().contains(op) ==> {
            &&& v.operations.dom().contains(op)
            &&& record_fits(v.intents[op], op, v.operations[op])
            &&& v.intents[op].state.ended() ==> v.intents[op].owner_fence is None
                && !v.intents[op].pinned
            &&& !v.intents[op].state.ended() ==> v.intents[op].pinned
        }
}

/// No intent knows of an authorization epoch that its actor has not reached.
pub open spec fn epochs_reached(v: CatalogView) -> bool {
    forall|op: OperationId| #[trigger]
        v.intents.dom().contains(op) ==> v.principals.dom().contains(v.intents[op].actor)
            && v.intents[op].authz_epoch <= v.principals[v.intents[op].actor].authz_epoch
}

/// Whether a version is listed for a file.
pub open spec fn listed(v: CatalogView, file: FileId, k: int) -> bool {
    v.versions.dom().contains(file) && 0 <= k < v.versions[file].len()
}

/// No two versions share an identifier: not two that are listed for a file, not two
/// that are under way, and not one of each.
pub open spec fn versions_distinct(v: CatalogView) -> bool {
    &&& forall|op: OperationId| #[trigger]
        v.intents.dom().contains(op) ==> v.intents[op].version_id.0 < v.next_version && (
        v.intents[op].candidate matches Some(candidate) ==> candidate.version_id
            == v.intents[op].version_id)
    &&& forall|a: OperationId, b: OperationId|
        #![trigger v.intents.dom().contains(a), v.intents.dom().contains(b)]
        v.intents.dom().contains(a) && v.intents.dom().contains(b) && v.intents[a].version_id
            == v.intents[b].version_id ==> a == b
    &&& forall|file: FileId, k: int| #[trigger]
        listed(v, file, k) ==> v.versions[file][k].id.0 < v.next_version
    &&& forall|file: FileId, k: int, op: OperationId|
        #![trigger listed(v, file, k), v.intents.dom().contains(op)]
        listed(v, file, k) && v.intents.dom().contains(op) && !v.intents[op].state.ended()
            ==> v.versions[file][k].id != v.intents[op].version_id
    &&& forall|file: FileId, j: int, k: int|
        #![trigger listed(v, file, j), listed(v, file, k)]
        listed(v, file, j) && listed(v, file, k) && v.versions[file][j].id
            == v.versions[file][k].id ==> j == k
}

/// What the records of a catalog say of each other.
pub open spec fn consistent(v: CatalogView) -> bool {
    &&& numbered(v)
    &&& names_unique(v)
    &&& histories_linear(v)
    &&& intents_recorded(v)
    &&& epochs_reached(v)
    &&& versions_distinct(v)
}

/// What holds of a catalog that only requests have changed.
pub open spec fn sound(v: CatalogView) -> bool {
    consistent(v) && registered(v)
}

/// A new catalog is sound.
pub proof fn law_fresh_is_sound()
    ensures
        sound(fresh()),
{
}

proof fn lemma_given_up_sound(
    v: CatalogView,
    op: OperationId,
    reason: Seq<char>,
    error: Option<CatalogError>,
)
    requires
        consistent(v),
        v.intents.dom().contains(op),
        !v.intents[op].state.ended(),
    ensures
        consistent(given_up(v, op, reason, error)),
        given_up(v, op, reason, error).intents.dom().contains(op),
        given_up(v, op, reason, error).intents[op].state is Aborted,
{
    let w = given_up(v, op, reason, error);
    assert(w.files == v.files && w.versions == v.versions && w.principals == v.principals);
    assert forall|file: FileId| #[trigger]
        w.files.dom().contains(file) implies linear(file, w.files[file].head, versions_of(w, file)) by {
        assert(v.files.dom().contains(file));
        assert(versions_of(w, file) == versions_of(v, file));
    }
    lemma_same_versions_distinct(v, w);
}

/// Listed versions stay distinct where no version is listed and no intent begun.
proof fn lemma_same_versions_distinct(v: CatalogView, w: CatalogView)
    requires
        versions_distinct(v),
        w.versions == v.versions,
        w.next_version >= v.next_version,
        forall|op: OperationId| #[trigger]
            w.intents.dom().contains(op) ==> v.intents.dom().contains(op)
                && w.intents[op].version_id == v.intents[op].version_id && (
            w.intents[op].candidate matches Some(candidate) ==> candidate.version_id
                == w.intents[op].version_id) && (v.intents[op].state.ended()
                ==> w.intents[op].state.ended()),
    ensures
        versions_distinct(w),
{
    assert forall|file: FileId, k: int| #[trigger] listed(w, file, k) implies w.versions[file][k].id.0
        < w.next_version by {
        assert(listed(v, file, k));
    }
    assert forall|file: FileId, k: int, op: OperationId|
        #![trigger listed(w, file, k), w.intents.dom().contains(op)]
        listed(w, file, k) && w.intents.dom().contains(op)
            && !w.intents[op].state.ended() implies w.versions[file][k].id
        != w.intents[op].version_id by {
        assert(listed(v, file, k));
    }
    assert forall|file: FileId, j: int, k: int|
        #![trigger listed(w, file, j), listed(w, file, k)]
        listed(w, file, j) && listed(w, file, k) && w.versions[file][j].id
            == w.versions[file][k].id implies j == k by {
        assert(listed(v, file, j) && listed(v, file, k));
    }
}

/// A version that is published under the identifier of its intent is distinct from
/// all others.
proof fn lemma_published_distinct(v: CatalogView, w: CatalogView, op: OperationId, version: FileVersion)
    requires
        versions_distinct(v),
        v.intents.dom().contains(op),
        !v.intents[op].state.ended(),
        version.id == v.intents[op].version_id,
        w.next_version == v.next_version,
        w.versions == v.versions.insert(
            v.intents[op].file,
            versions_of(v, v.intents[op].file).push(version),
        ),
        w.intents.dom() =~= v.intents.dom(),
        w.intents[op].state.ended(),
        forall|other: OperationId| #[trigger]
            v.intents.dom().contains(other) ==> w.intents[other].version_id
                == v.intents[other].version_id && w.intents[other].candidate
                == v.intents[other].candidate && (other != op ==> w.intents[other]
                == v.intents[other]),
    ensures
        versions_distinct(w),
{
    let file = v.intents[op].file;
    let list = versions_of(v, file);
    assert forall|f: FileId, k: int| #[trigger] listed(w, f, k) implies w.versions[f][k].id.0
        < w.next_version && ((listed(v, f, k) && w.versions[f][k] == v.versions[f][k]) || (f == file
        && k == list.len() && w.versions[f][k] == version)) by {
        if f != file || k < list.len() {
            assert(listed(v, f, k));
        }
    }
    assert forall|f: FileId, k: int, other: OperationId|
        #![trigger listed(w, f, k), w.intents.dom().contains(other)]
        listed(w, f, k) && w.intents.dom().contains(other)
            && !w.intents[other].state.ended() implies w.versions[f][k].id
        != w.intents[other].version_id by {
        assert(v.intents.dom().contains(other) && other != op);
        if listed(v, f, k) && w.versions[f][k] == v.versions[f][k] {
            assert(v.versions[f][k].id != v.intents[other].version_id);
        }
    }
    assert forall|f: FileId, j: int, k: int|
        #![trigger listed(w, f, j), listed(w, f, k)]
        listed(w, f, j) && listed(w, f, k) && w.versions[f][j].id
            == w.versions[f][k].id implies j == k by {
        if listed(v, f, j) && w.versions[f][j] == v.versions[f][j] {
            assert(v.versions[f][j].id != version.id);
        }
        if listed(v, f, k) && w.versions[f][k] == v.versions[f][k] {
            assert(v.versions[f][k].id != version.id);
        }
    }
}

proof fn lemma_publish_sound(
    v: CatalogView,
    actor: PrincipalId,
    op: OperationId,
    fence: Option<FenceToken>,
)
    requires
        consistent(v),
    ensures
        consistent(publish_outcome(v, actor, op, fence).1),
{
    let (r, w) = publish_outcome(v, actor, op, fence);
    if v.intents.dom().contains(op) && w != v {
        let intent = v.intents[op];
        if r is Ok {
            let file = intent.file;
            let old_list = versions_of(v, file);
            let version = r->Ok_0;
            let list = old_list.push(version);
            assert(w.versions == v.versions.insert(file, list));
            assert(linear(file, v.files[file].head, old_list)) by {
                assert(v.files.dom().contains(file));
            }
            assert(linear(file, w.files[file].head, list)) by {
                assert forall|k: int| 0 <= k < list.len() implies (#[trigger] list[k]).file == file
                    && list[k].generation == k + 1 && list[k].parent_version_id == version_before(
                    list,
                    k,
                ) by {
                    if k < old_list.len() {
                        assert(old_list[k] == list[k]);
                        if k > 0 {
                            assert(old_list[k - 1] == list[k - 1]);
                        }
                    } else if k > 0 {
                        assert(old_list[k - 1] == list[k - 1]);
                    }
                }
            }
            assert forall|f: FileId| #[trigger] w.files.dom().contains(f) implies linear(
                f,
                w.files[f].head,
                versions_of(w, f),
            ) by {
                if f != file {
                    assert(v.files.dom().contains(f));
                    assert(versions_of(w, f) == versions_of(v, f));
                }
            }
            lemma_published_distinct(v, w, op, version);
        } else {
            let reason = w.intents[op].abort_reason->0;
            lemma_given_up_sound(v, op, reason, Some(r->Err_0));
        }
    }
}

pub proof fn lemma_bind_sound(v: CatalogView, actor: PrincipalId, op: OperationId, fence: FenceToken)
    requires
        consistent(v),
    ensures
        consistent(bind_outcome(v, actor, op, fence).1),
{
    let (r, w) = bind_outcome(v, actor, op, fence);
    if v.intents.dom().contains(op) && w != v {
        if r is Ok {
            lemma_same_files_sound(v, w);
            lemma_same_versions_distinct(v, w);
        } else {
            lemma_given_up_sound(
                v,
                op,
                w.intents[op].abort_reason->0,
                Some(CatalogError::CandidateMismatch),
            );
        }
    }
}

/// What speaks of files alone depends on files alone.
proof fn lemma_same_files_sound(v: CatalogView, w: CatalogView)
    requires
        histories_linear(v),
        w.files == v.files,
        w.versions == v.versions,
    ensures
        histories_linear(w),
{
    assert forall|file: FileId| #[trigger]
        w.files.dom().contains(file) implies linear(file, w.files[file].head, versions_of(w, file)) by {
        assert(v.files.dom().contains(file));
        assert(versions_of(w, file) == versions_of(v, file));
    }
}

proof fn lemma_recover_sound(v: CatalogView, binding: Option<CommitReceipt>, op: OperationId)
    requires
        consistent(v),
    ensures
        consistent(recover_outcome(v, binding, op).1),
        ({
            let w = recover_outcome(v, binding, op).1;
            v.intents.dom().contains(op) && v.intents[op].owner_fence is None
                && v.next_fence_nonce < u64::MAX ==> w.intents.dom().contains(op)
                && w.intents[op].state.ended()
        }),
{
    broadcast use crate::catalog::types::lemma_token;

    if v.intents.dom().contains(op) && !v.intents[op].state.ended() {
        let claim = claim_outcome(v, op);
        if claim.0 is Ok {
            let fence = claim.0->Ok_0;
            let c = claim.1;
            lemma_same_files_sound(v, c);
            lemma_same_versions_distinct(v, c);
            assert(consistent(c));
            match binding {
                None => {
                    lemma_given_up_sound(
                        c,
                        op,
                        "DAG operation binding missing during recovery"@,
                        Some(CatalogError::InvalidIntent),
                    );
                },
                Some(receipt) => {
                    lemma_resume_sound(c, op, fence, receipt);
                    let end = resume_outcome(c, op, fence, receipt);
                    if end.0 is Err && !end.1.intents[op].state.ended() {
                        let error = end.0->Err_0;
                        lemma_given_up_sound(
                            end.1,
                            op,
                            crate::catalog::rules::recovery_reason(error),
                            Some(error),
                        );
                    }
                },
            }
        }
    }
}

/// Claiming an intent for recovery keeps the records.
pub proof fn lemma_claim_consistent(v: CatalogView, op: OperationId)
    requires
        consistent(v),
    ensures
        consistent(claim_outcome(v, op).1),
{
    lemma_same_files_sound(v, claim_outcome(v, op).1);
    lemma_same_versions_distinct(v, claim_outcome(v, op).1);
}

/// Taking in a receipt keeps the records.
pub proof fn lemma_handoff_consistent(v: CatalogView, w: CatalogView)
    requires
        consistent(v),
        w == (CatalogView { handoffs: w.handoffs, ..v }),
    ensures
        consistent(w),
{
    lemma_same_files_sound(v, w);
    lemma_same_versions_distinct(v, w);
}

proof fn lemma_resume_sound(
    v: CatalogView,
    op: OperationId,
    fence: FenceToken,
    receipt: CommitReceipt,
)
    requires
        consistent(v),
        v.intents.dom().contains(op),
        !v.intents[op].state.ended(),
        fenced(v, v.intents[op], fence),
    ensures
        ({
            let end = resume_outcome(v, op, fence, receipt);
            &&& consistent(end.1)
            &&& end.1.intents.dom().contains(op)
            &&& end.0 is Ok ==> end.1.intents[op].state.ended()
            &&& end.1.intents[op].state.ended() || fenced(end.1, end.1.intents[op], fence)
        }),
{
    let actor = v.intents[op].actor;
    if actor_problem(v, actor, v.intents[op]) is None {
        if !(v.handoffs.dom().contains(op) && v.handoffs[op].receipt != receipt) {
            let w = if v.handoffs.dom().contains(op) {
                v
            } else {
                CatalogView {
                    handoffs: v.handoffs.insert(op, crate::catalog::rules::handed_over(receipt)),
                    ..v
                }
            };
            lemma_same_files_sound(v, w);
            lemma_same_versions_distinct(v, w);
            assert(consistent(w));
            lemma_bind_sound(w, actor, op, fence);
            let attached = bind_outcome(w, actor, op, fence);
            if attached.0 is Ok {
                lemma_publish_sound(attached.1, actor, op, Some(fence));
            }
        }
    }
}

proof fn lemma_creation_sound(v: CatalogView, request: Request)
    requires
        consistent(v),
        request is CreateCollection || request is CreateFile,
    ensures
        consistent(after(v, request)),
{
    let w = after(v, request);
    match request {
        Request::CreateCollection { actor, owner, name, op } => {
            lemma_same_files_sound(v, w);
            lemma_same_versions_distinct(v, w);
        },
        Request::CreateFile { actor, collection, name, op } => {
            lemma_same_versions_distinct(v, w);
            assert forall|file: FileId| #[trigger] w.files.dom().contains(file) implies linear(
                file,
                w.files[file].head,
                versions_of(w, file),
            ) by {
                if v.files.dom().contains(file) {
                    assert(versions_of(w, file) == versions_of(v, file));
                } else {
                    assert(!v.versions.dom().contains(file));
                    assert(versions_of(w, file).len() == 0);
                }
            }
        },
        _ => {},
    }
}

proof fn lemma_begin_sound(v: CatalogView, request: Request)
    requires
        consistent(v),
        request is Begin || request is Register,
    ensures
        consistent(after(v, request)),
{
    let w = after(v, request);
    lemma_same_files_sound(v, w);
    match request {
        Request::Begin { actor, file, op, expected, fence } => {
            if w.intents.dom().contains(op) && !v.intents.dom().contains(op) {
                lemma_begun_distinct(v, w, op);
            } else {
                lemma_same_versions_distinct(v, w);
            }
        },
        _ => {
            lemma_same_versions_distinct(v, w);
        },
    }
}

/// A new intent takes an identifier that no version has.
proof fn lemma_begun_distinct(v: CatalogView, w: CatalogView, op: OperationId)
    requires
        versions_distinct(v),
        !v.intents.dom().contains(op),
        w.versions == v.versions,
        v.next_version < u64::MAX,
        w.next_version == v.next_version + 1,
        w.intents == v.intents.insert(op, w.intents[op]),
        w.intents[op].version_id == VersionId(v.next_version),
        w.intents[op].candidate is None,
    ensures
        versions_distinct(w),
{
    assert forall|file: FileId, k: int| #[trigger] listed(w, file, k) implies w.versions[file][k].id.0
        < v.next_version by {
        assert(listed(v, file, k));
    }
    assert forall|file: FileId, k: int, other: OperationId|
        #![trigger listed(w, file, k), w.intents.dom().contains(other)]
        listed(w, file, k) && w.intents.dom().contains(other)
            && !w.intents[other].state.ended() implies w.versions[file][k].id
        != w.intents[other].version_id by {
        assert(listed(v, file, k));
        if other != op {
            assert(v.intents.dom().contains(other));
        }
    }
    assert forall|file: FileId, j: int, k: int|
        #![trigger listed(w, file, j), listed(w, file, k)]
        listed(w, file, j) && listed(w, file, k) && w.versions[file][j].id
            == w.versions[file][k].id implies j == k by {
        assert(listed(v, file, j) && listed(v, file, k));
    }
    assert forall|a: OperationId, b: OperationId|
        #![trigger w.intents.dom().contains(a), w.intents.dom().contains(b)]
        w.intents.dom().contains(a) && w.intents.dom().contains(b) && w.intents[a].version_id
            == w.intents[b].version_id implies a == b by {
        if a != op {
            assert(v.intents.dom().contains(a));
        }
        if b != op {
            assert(v.intents.dom().contains(b));
        }
    }
}

proof fn lemma_members_sound(v: CatalogView, request: Request)
    requires
        consistent(v),
        request is Grant || request is Revoke || request is SetState,
    ensures
        consistent(after(v, request)),
{
    lemma_same_files_sound(v, after(v, request));
    lemma_same_versions_distinct(v, after(v, request));
}

proof fn lemma_abort_sound(v: CatalogView, request: Request)
    requires
        consistent(v),
        request is Abort || request is RecoveryAbort,
    ensures
        consistent(after(v, request)),
{
    let w = after(v, request);
    match request {
        Request::Abort { op, actor, fence } => {
            if w != v {
                lemma_given_up_sound(v, op, "caller abort"@, None);
            }
        },
        Request::RecoveryAbort { op, fence, reason } => {
            if w != v {
                lemma_given_up_sound(v, op, reason, Some(CatalogError::InvalidIntent));
            }
        },
        _ => {},
    }
}

proof fn lemma_others_sound(v: CatalogView, request: Request)
    requires
        consistent(v),
        request is CreatePrincipal || request is AllocateOperation || request is Reopen
            || request is Pin || request is Unpin,
    ensures
        consistent(after(v, request)),
{
    lemma_same_files_sound(v, after(v, request));
    lemma_same_versions_distinct(v, after(v, request));
}

/// Whatever is asked of a sound catalog, it stays sound.
pub proof fn law_requests_keep_soundness(v: CatalogView, request: Request)
    requires
        sound(v),
    ensures
        sound(after(v, request)),
{
    lemma_requests_keep_registered(v, request);
    match request {
        Request::CreateCollection { .. } | Request::CreateFile { .. } => {
            lemma_creation_sound(v, request);
        },
        Request::Publish { actor, op, fence } => {
            lemma_publish_sound(v, actor, op, fence);
        },
        Request::Bind { actor, op, fence } => {
            lemma_bind_sound(v, actor, op, fence);
        },
        Request::Recover { binding, op } => {
            lemma_recover_sound(v, binding, op);
        },
        Request::Abort { .. } | Request::RecoveryAbort { .. } => {
            lemma_abort_sound(v, request);
        },
        Request::Begin { .. } | Request::Register { .. } => {
            lemma_begin_sound(v, request);
        },
        Request::Grant { .. } | Request::Revoke { .. } | Request::SetState { .. } => {
            lemma_members_sound(v, request);
        },
        _ => {
            lemma_others_sound(v, request);
        },
    }
}

/// The catalog after a run of requests.
pub open spec fn after_all(v: CatalogView, requests: Seq<Request>) -> CatalogView
    decreases requests.len(),
{
    if requests.len() == 0 {
        v
    } else {
        after(after_all(v, requests.drop_last()), requests.last())
    }
}

/// Every catalog that requests can bring about is sound: identifiers are not used
/// twice, names are unique, the versions of each file form one line that ends at its
/// head, every intent has its durable record, no two claims are alike, and no file has
/// published a commit twice.
pub proof fn law_every_reachable_catalog_is_sound(requests: Seq<Request>)
    ensures
        sound(after_all(fresh(), requests)),
    decreases requests.len(),
{
    if requests.len() > 0 {
        law_every_reachable_catalog_is_sound(requests.drop_last());
        law_requests_keep_soundness(
            after_all(fresh(), requests.drop_last()),
            requests.last(),
        );
    }
}

/// An ended intent stays as it is, and so does its recorded end, whatever is asked
/// afterwards.
pub proof fn law_ended_is_final(v: CatalogView, request: Request, op: OperationId)
    requires
        sound(v),
        v.intents.dom().contains(op),
        v.intents[op].state.ended(),
    ensures
        after(v, request).intents.dom().contains(op),
        after(v, request).intents[op] == v.intents[op],
        after(v, request).operations.dom().contains(op),
        after(v, request).operations[op] == v.operations[op],
{
    match request {
        Request::Recover { binding, op: recovered } => {
            lemma_recover_leaves_others(v, binding, recovered, op);
        },
        Request::CreateCollection { .. } | Request::CreateFile { .. } => {
            lemma_creation_leaves_ended(v, request, op);
        },
        Request::Begin { .. } | Request::Register { .. } | Request::Bind { .. } => {
            lemma_begin_leaves_ended(v, request, op);
        },
        Request::Publish { .. } | Request::Abort { .. } | Request::RecoveryAbort { .. } => {
            lemma_end_leaves_ended(v, request, op);
        },
        _ => {
            lemma_others_leave_ended(v, request, op);
        },
    }
}

/// Whether an intent and its record are the same in both catalogs.
pub open spec fn unchanged(v: CatalogView, w: CatalogView, op: OperationId) -> bool {
    &&& w.intents.dom().contains(op)
    &&& w.intents[op] == v.intents[op]
    &&& w.operations.dom().contains(op)
    &&& w.operations[op] == v.operations[op]
}

proof fn lemma_creation_leaves_ended(v: CatalogView, request: Request, op: OperationId)
    requires
        consistent(v),
        v.intents.dom().contains(op),
        v.intents[op].state.ended(),
        request is CreateCollection || request is CreateFile,
    ensures
        unchanged(v, after(v, request), op),
{
    assert(record_fits(v.intents[op], op, v.operations[op]));
}

proof fn lemma_begin_leaves_ended(v: CatalogView, request: Request, op: OperationId)
    requires
        consistent(v),
        v.intents.dom().contains(op),
        v.intents[op].state.ended(),
        request is Begin || request is Register || request is Bind,
    ensures
        unchanged(v, after(v, request), op),
{
}

proof fn lemma_end_leaves_ended(v: CatalogView, request: Request, op: OperationId)
    requires
        consistent(v),
        v.intents.dom().contains(op),
        v.intents[op].state.ended(),
        request is Publish || request is Abort || request is RecoveryAbort,
    ensures
        unchanged(v, after(v, request), op),
{
}

proof fn lemma_others_leave_ended(v: CatalogView, request: Request, op: OperationId)
    requires
        consistent(v),
        v.intents.dom().contains(op),
        v.intents[op].state.ended(),
        request is CreatePrincipal || request is AllocateOperation || request is Reopen
            || request is Pin || request is Unpin || request is Grant || request is Revoke || request is SetState,
    ensures
        unchanged(v, after(v, request), op),
{
}

/// Recovery of one intent touches no other.
proof fn lemma_recover_leaves_others(
    v: CatalogView,
    binding: Option<CommitReceipt>,
    op: OperationId,
    other: OperationId,
)
    requires
        v.intents.dom().contains(other),
        v.intents[other].state.ended(),
    ensures
        recover_outcome(v, binding, op).1.intents.dom().contains(other),
        recover_outcome(v, binding, op).1.intents[other] == v.intents[other],
        v.operations.dom().contains(other) ==> recover_outcome(
            v,
            binding,
            op,
        ).1.operations.dom().contains(other) && recover_outcome(v, binding, op).1.operations[other]
            == v.operations[other],
{
}

/// A publication that succeeded moves the head of its file by one, from the head that
/// the intent was begun on, and touches no other file.
pub proof fn law_publish_moves_head_by_one(
    v: CatalogView,
    actor: PrincipalId,
    op: OperationId,
    fence: Option<FenceToken>,
)
    requires
        v.intents.dom().contains(op),
        !v.intents[op].state.ended(),
        publish_outcome(v, actor, op, fence).0 is Ok,
    ensures
        ({
            let intent = v.intents[op];
            let (r, w) = publish_outcome(v, actor, op, fence);
            let version = r->Ok_0;
            let before = v.files[intent.file].head;
            let head = w.files[intent.file].head;
            &&& before == intent.expected_head
            &&& head == (Head {
                version_id: Some(version.id),
                generation: (before.generation + 1) as u64,
            })
            &&& before.generation < u64::MAX
            &&& version.parent_version_id == before.version_id
            &&& versions_of(w, intent.file) == versions_of(v, intent.file).push(version)
            &&& forall|other: FileId| #[trigger]
                v.files.dom().contains(other) && other != intent.file ==> w.files[other]
                    == v.files[other] && versions_of(w, other) == versions_of(v, other)
        }),
{
}

/// Of two publications that were begun on one head of one file, at most one succeeds.
pub proof fn law_one_publication_per_head(
    v: CatalogView,
    first: OperationId,
    second: OperationId,
    actor: PrincipalId,
    other: PrincipalId,
    fence: Option<FenceToken>,
    token: Option<FenceToken>,
)
    requires
        sound(v),
        first != second,
        v.intents.dom().contains(first),
        v.intents.dom().contains(second),
        !v.intents[first].state.ended(),
        !v.intents[second].state.ended(),
        v.intents[first].file == v.intents[second].file,
        v.intents[first].expected_head == v.intents[second].expected_head,
        publish_outcome(v, actor, first, fence).0 is Ok,
    ensures
        publish_outcome(publish_outcome(v, actor, first, fence).1, other, second, token).0 is Err,
{
}

/// A retry of a publication that has ended is answered as the first time, and changes
/// nothing, whatever claim it brings.
pub proof fn law_publish_is_idempotent(
    v: CatalogView,
    actor: PrincipalId,
    op: OperationId,
    fence: Option<FenceToken>,
    again: Option<FenceToken>,
)
    requires
        sound(v),
        publish_outcome(v, actor, op, fence).1.intents.dom().contains(op),
        publish_outcome(v, actor, op, fence).1.intents[op].state.ended(),
        v.intents.dom().contains(op) && !v.intents[op].state.ended(),
    ensures
        ({
            let (r, w) = publish_outcome(v, actor, op, fence);
            publish_outcome(w, actor, op, again) == (r, w)
        }),
{
}

/// A retry of a request to make a collection is answered as the first time, and
/// changes nothing.
pub proof fn law_create_collection_is_idempotent(
    v: CatalogView,
    actor: PrincipalId,
    owner: PrincipalId,
    name: Seq<char>,
    op: OperationId,
)
    ensures
        ({
            let (r, w) = create_collection_outcome(v, actor, owner, name, op);
            create_collection_outcome(w, actor, owner, name, op) == (r, w)
        }),
{
}

/// A retry of a request to make a file is answered as the first time, and changes
/// nothing.
pub proof fn law_create_file_is_idempotent(
    v: CatalogView,
    actor: PrincipalId,
    collection: CollectionId,
    name: Seq<char>,
    op: OperationId,
)
    ensures
        ({
            let (r, w) = create_file_outcome(v, actor, collection, name, op);
            create_file_outcome(w, actor, collection, name, op) == (r, w)
        }),
{
}

/// A retry of a request to begin a publication is answered as the first time, and
/// changes nothing, if it brings the claim that the first time handed out.
pub proof fn law_begin_is_idempotent(
    v: CatalogView,
    actor: PrincipalId,
    file: FileId,
    op: OperationId,
    expected: Head,
    fence: Option<FenceToken>,
)
    requires
        sound(v),
        !v.operations.dom().contains(op),
    ensures
        ({
            let (r, w) = begin_publish_outcome(v, actor, file, op, expected, fence);
            let claim = if r is Ok {
                w.intents[op].owner_fence
            } else {
                fence
            };
            begin_publish_outcome(w, actor, file, op, expected, claim) == (r, w)
        }),
{
    broadcast use crate::catalog::types::lemma_token;

    assert(!v.intents.dom().contains(op));
}

/// Without the current claim nothing moves an open intent: every request of its actor
/// and of recovery that brings another token is refused and changes nothing.
pub proof fn law_claim_is_needed(
    v: CatalogView,
    actor: PrincipalId,
    op: OperationId,
    fence: FenceToken,
    receipt: CommitReceipt,
    durable: bool,
    reason: Seq<char>,
)
    requires
        v.intents.dom().contains(op),
        !v.intents[op].state.ended(),
        !fenced(v, v.intents[op], fence),
    ensures
        register_outcome(v, actor, op, fence, receipt, durable).0 is Err,
        register_outcome(v, actor, op, fence, receipt, durable).1 == v,
        bind_outcome(v, actor, op, fence).0 is Err,
        bind_outcome(v, actor, op, fence).1 == v,
        publish_outcome(v, actor, op, Some(fence)).0 is Err,
        publish_outcome(v, actor, op, Some(fence)).1 == v,
        publish_outcome(v, actor, op, None).0 is Err,
        publish_outcome(v, actor, op, None).1 == v,
        abort_outcome(v, op, actor, Some(fence)).0 is Err,
        abort_outcome(v, op, actor, Some(fence)).1 == v,
        recovery_abort_outcome(v, op, fence, reason) == (
            Err::<crate::catalog::types::PublicIntentView, CatalogError>(CatalogError::FenceLost),
            v,
        ),
{
}

/// A claim does not outlive its coordinator: after a reopen no token of an earlier
/// epoch is a claim on anything.
pub proof fn law_reopen_voids_claims(v: CatalogView, intent: IntentView, fence: FenceToken)
    requires
        v.coordinator_epoch < u64::MAX,
        fence.epoch() <= v.coordinator_epoch,
    ensures
        !fenced(reopened(v), intent, fence),
        forall|op: OperationId| #[trigger]
            reopened(v).intents.dom().contains(op) ==> reopened(v).intents[op].owner_fence is None,
{
}

/// A crash loses nothing that was recorded.
pub proof fn law_reopen_keeps_records(v: CatalogView)
    ensures
        ({
            let w = reopened(v);
            &&& w.principals == v.principals
            &&& w.collections == v.collections
            &&& w.files == v.files
            &&& w.versions == v.versions
            &&& w.operations == v.operations
            &&& w.handoffs == v.handoffs
            &&& w.memberships == v.memberships
            &&& w.intents.dom() == v.intents.dom()
            &&& forall|op: OperationId| #[trigger]
                v.intents.dom().contains(op) ==> w.intents[op].public() == v.intents[op].public()
        }),
{
    assert(reopened(v).intents.dom() =~= v.intents.dom());
}

/// Once a membership of the actor has changed, what it began before cannot be
/// published.
pub proof fn law_membership_change_stops_publication(
    v: CatalogView,
    request: Request,
    actor: PrincipalId,
    op: OperationId,
    fence: Option<FenceToken>,
)
    requires
        sound(v),
        v.intents.dom().contains(op),
        !v.intents[op].state.ended(),
        match request {
            Request::Grant { actor, organization, member, to } => member == v.intents[op].actor
                && membership_problem(v, actor, organization, member) is None,
            Request::Revoke { actor, organization, member } => member == v.intents[op].actor
                && membership_problem(v, actor, organization, member) is None,
            Request::SetState { id, state } => id == v.intents[op].actor && state_outcome(
                v,
                id,
                state,
            ).0 is Ok,
            _ => false,
        },
    ensures
        publish_outcome(after(v, request), actor, op, fence).0 is Err,
        after(v, request).intents[op] == v.intents[op],
{
}

/// A change of authorization that cannot be recorded for both principals is recorded
/// for neither.
pub proof fn law_epoch_overflow_changes_nothing(
    v: CatalogView,
    actor: PrincipalId,
    organization: PrincipalId,
    member: PrincipalId,
    to: Capability,
)
    requires
        v.principals.dom().contains(organization),
        v.principals.dom().contains(member),
        v.principals[organization].authz_epoch == u64::MAX || v.principals[member].authz_epoch
            == u64::MAX,
    ensures
        after(v, Request::Grant { actor, organization, member, to }) == v,
        after(v, Request::Revoke { actor, organization, member }) == v,
{
}

/// Recovery of an intent that nobody has claimed ends it.
pub proof fn law_recovery_ends_the_intent(
    v: CatalogView,
    binding: Option<CommitReceipt>,
    op: OperationId,
)
    requires
        sound(v),
        v.intents.dom().contains(op),
        v.intents[op].owner_fence is None,
        v.next_fence_nonce < u64::MAX,
    ensures
        recover_outcome(v, binding, op).1.intents[op].state.ended(),
{
    lemma_recover_sound(v, binding, op);
}

/// Where reconciliation gets through, it leaves no intent of its list open.
pub proof fn law_reconciliation_ends_all(
    v: CatalogView,
    graph: Graph,
    bindings: Bindings,
    ops: Seq<OperationId>,
)
    requires
        sound(v),
        forall|i: int| 0 <= i < ops.len() ==> v.intents.dom().contains(#[trigger] ops[i]),
        recover_all(v, graph, bindings, ops).0 is Ok,
    ensures
        sound(recover_all(v, graph, bindings, ops).1),
        forall|i: int|
            0 <= i < ops.len() ==> recover_all(v, graph, bindings, ops).1.intents.dom().contains(
                #[trigger] ops[i],
            ) && recover_all(v, graph, bindings, ops).1.intents[ops[i]].state.ended(),
    decreases ops.len(),
{
    if ops.len() > 0 {
        let op = ops[0];
        let rest = ops.drop_first();
        let binding = active_receipt(graph, bindings, op);
        let w = if v.intents[op].state.ended() {
            v
        } else {
            recover_outcome(v, binding, op).1
        };
        assert(v.intents.dom().contains(ops[0]));
        lemma_recover_sound(v, binding, op);
        lemma_requests_keep_registered(v, Request::Recover { binding, op });
        lemma_recover_keeps_all(v, binding, op);
        assert(w.intents[op].state.ended());
        assert forall|i: int| 0 <= i < rest.len() implies w.intents.dom().contains(
            #[trigger] rest[i],
        ) by {
            assert(rest[i] == ops[i + 1]);
        }
        law_reconciliation_ends_all(w, graph, bindings, rest);
        lemma_recover_all_keeps_ended(w, graph, bindings, rest, op);
        let x = recover_all(v, graph, bindings, ops).1;
        assert forall|i: int| 0 <= i < ops.len() implies x.intents.dom().contains(#[trigger] ops[i])
            && x.intents[ops[i]].state.ended() by {
            if i > 0 {
                assert(rest[i - 1] == ops[i]);
            }
        }
    }
}

/// Recovery forgets no intent.
proof fn lemma_recover_keeps_all(v: CatalogView, binding: Option<CommitReceipt>, op: OperationId)
    ensures
        forall|other: OperationId| #[trigger]
            v.intents.dom().contains(other) ==> recover_outcome(
                v,
                binding,
                op,
            ).1.intents.dom().contains(other),
{
}

proof fn lemma_recover_all_keeps_ended(
    v: CatalogView,
    graph: Graph,
    bindings: Bindings,
    ops: Seq<OperationId>,
    op: OperationId,
)
    requires
        v.intents.dom().contains(op),
        v.intents[op].state.ended(),
    ensures
        recover_all(v, graph, bindings, ops).1.intents.dom().contains(op),
        recover_all(v, graph, bindings, ops).1.intents[op] == v.intents[op],
    decreases ops.len(),
{
    if ops.len() > 0 {
        let first = ops[0];
        if v.intents.dom().contains(first) && !v.intents[first].state.ended() {
            let binding = active_receipt(graph, bindings, first);
            lemma_recover_leaves_others(v, binding, first, op);
            let step = recover_outcome(v, binding, first);
            lemma_recover_all_keeps_ended(step.1, graph, bindings, ops.drop_first(), op);
        } else {
            lemma_recover_all_keeps_ended(v, graph, bindings, ops.drop_first(), op);
        }
    }
}

/// What a published version reaches can never be reclaimed.
pub proof fn law_published_is_never_reclaimable(
    v: CatalogView,
    graph: Graph,
    bindings: Bindings,
    op: OperationId,
    file: FileId,
    k: int,
)
    requires
        v.versions.dom().contains(file),
        0 <= k < v.versions[file].len(),
        reaches(graph, v.versions[file][k].commit_id, v.handoffs[op].receipt.commit_id),
    ensures
        !reclaimable(v, graph, bindings, op),
{
    assert(is_root(v, bindings, op, v.versions[file][k].commit_id));
}

/// While a reader holds a commit, nothing that it reaches can be reclaimed.
pub proof fn law_pinned_is_never_reclaimable(
    v: CatalogView,
    graph: Graph,
    bindings: Bindings,
    op: OperationId,
    commit: CommitId,
)
    requires
        v.reader_pins.dom().contains(commit) || v.retention_roots.contains(commit),
        reaches(graph, commit, v.handoffs[op].receipt.commit_id),
    ensures
        !reclaimable(v, graph, bindings, op),
{
    assert(is_root(v, bindings, op, commit));
}

/// Where a root is missing from the graph, nothing can be reclaimed.
pub proof fn law_missing_root_retains(
    v: CatalogView,
    graph: Graph,
    bindings: Bindings,
    op: OperationId,
    root: CommitId,
)
    requires
        is_root(v, bindings, op, root),
        !graph.dom().contains(root),
    ensures
        !reclaimable(v, graph, bindings, op),
{
}

} // verus!
