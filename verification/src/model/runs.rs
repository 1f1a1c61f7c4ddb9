//! What holds of the single-coordinator catalog after any run of requests.
use vstd::prelude::*;

use crate::catalog::graph::Graph;
use crate::catalog::ids::{CollectionId, CommitId, FileId, OperationId, PrincipalId};
use crate::catalog::types::{
    Capability, CatalogError, FileVersion, Head, MemberKey, OperationResult, Principal,
    PrincipalKind, PrincipalState,
};
use crate::model::laws::{has_published, law_names_stay_unique, names_unique};
use crate::model::rules::{
    abort_outcome, begin_publish_outcome, bind_outcome, bumped, claim_outcome,
    create_collection_outcome, create_file_outcome, fenced, file_problem, fresh, give_up_outcome,
    given_up, membership_problem, publish_outcome, recover_outcome, recovery_abort_outcome,
    register_outcome, reopened, state_outcome, BasicView,
};

verus! {

/// What can be asked of the catalog.
pub enum Request {
    AllocateOperation,
    CreatePrincipal { kind: PrincipalKind },
    Grant { actor: PrincipalId, organization: PrincipalId, member: PrincipalId, to: Capability },
    Revoke { actor: PrincipalId, organization: PrincipalId, member: PrincipalId },
    SetState { id: PrincipalId, state: PrincipalState },
    CreateCollection { actor: PrincipalId, owner: PrincipalId, text: Seq<char>, op: OperationId },
    CreateFile { actor: PrincipalId, collection: CollectionId, text: Seq<char>, op: OperationId },
    Begin { actor: PrincipalId, file: FileId, op: OperationId, expected: Head },
    Register { graph: Graph, op: OperationId, fence: u64, commit: CommitId },
    Bind { op: OperationId, fence: u64 },
    Publish { op: OperationId, fence: u64 },
    Abort { op: OperationId, actor: PrincipalId, fence: u64 },
    RecoveryAbort { op: OperationId, fence: u64, reason: Seq<char> },
    Claim { op: OperationId },
    Recover { op: OperationId },
    Hold { retained: Set<CommitId>, read: Set<CommitId> },
    Reopen,
}

/// The catalog after a request.
pub open spec fn after(v: BasicView, request: Request) -> BasicView {
    match request {
        Request::AllocateOperation => if v.next_operation == u64::MAX {
            v
        } else {
            BasicView { next_operation: (v.next_operation + 1) as u64, ..v }
        },
        Request::CreatePrincipal { kind } => if v.next_principal == u64::MAX {
            v
        } else {
            let id = PrincipalId(v.next_principal);
            BasicView {
                next_principal: (id.0 + 1) as u64,
                principals: v.principals.insert(
                    id,
                    Principal { id, kind, state: PrincipalState::Active, authz_epoch: 0 },
                ),
                ..v
            }
        },
        Request::Grant { actor, organization, member, to } => if membership_problem(
            v,
            actor,
            organization,
            member,
        ) is Some {
            v
        } else {
            BasicView {
                memberships: v.memberships.insert(MemberKey { organization, member }, to),
                ..bumped(v, organization, member)
            }
        },
        Request::Revoke { actor, organization, member } => if membership_problem(
            v,
            actor,
            organization,
            member,
        ) is Some {
            v
        } else {
            BasicView {
                memberships: v.memberships.remove(MemberKey { organization, member }),
                ..bumped(v, organization, member)
            }
        },
        Request::SetState { id, state } => state_outcome(v, id, state).1,
        Request::CreateCollection { actor, owner, text, op } => create_collection_outcome(
            v,
            actor,
            owner,
            text,
            op,
        ).1,
        Request::CreateFile { actor, collection, text, op } => create_file_outcome(
            v,
            actor,
            collection,
            text,
            op,
        ).1,
        Request::Begin { actor, file, op, expected } => begin_publish_outcome(
            v,
            actor,
            file,
            op,
            expected,
        ).1,
        Request::Register { graph, op, fence, commit } => register_outcome(
            v,
            graph,
            op,
            fence,
            commit,
        ).1,
        Request::Bind { op, fence } => bind_outcome(v, op, fence).1,
        Request::Publish { op, fence } => publish_outcome(v, op, fence).1,
        Request::Abort { op, actor, fence } => abort_outcome(v, op, actor, fence).1,
        Request::RecoveryAbort { op, fence, reason } => recovery_abort_outcome(
            v,
            op,
            fence,
            reason,
        ).1,
        Request::Claim { op } => claim_outcome(v, op).1,
        Request::Recover { op } => recover_outcome(v, op).1,
        Request::Hold { retained, read } => BasicView {
            retention_roots: retained,
            reader_pins: read,
            ..v
        },
        Request::Reopen => if v.coordinator_epoch == u64::MAX {
            v
        } else {
            reopened(v)
        },
    }
}

/// The catalog after a run of requests.
pub open spec fn after_all(v: BasicView, requests: Seq<Request>) -> BasicView
    decreases requests.len(),
{
    if requests.len() == 0 {
        v
    } else {
        after(after_all(v, requests.drop_last()), requests.last())
    }
}

/// Principals are numbered in the order in which they were made.
pub open spec fn principals_numbered(v: BasicView) -> bool {
    forall|id: PrincipalId| #[trigger] v.principals.dom().contains(id) ==> id.0 < v.next_principal
}

/// No intent knows of an authorization epoch that its actor, or the catalog, has not reached.
pub open spec fn epochs_reached(v: BasicView) -> bool {
    forall|op: OperationId| #[trigger]
        v.intents.dom().contains(op) ==> {
            &&& v.principals.dom().contains(v.intents[op].actor)
            &&& v.intents[op].authz_epoch <= v.principals[v.intents[op].actor].authz_epoch
            &&& v.intents[op].global_authz_epoch <= v.global_authz_epoch
        }
}

/// Every intent belongs to a recorded request to publish, which has a version as its result
/// only where the intent was published.
pub open spec fn intents_recorded(v: BasicView) -> bool {
    forall|op: OperationId| #[trigger]
        v.intents.dom().contains(op) ==> {
            &&& v.operations.dom().contains(op)
            &&& v.operations[op].kind is Publish
            &&& v.operations[op].result matches Some(OperationResult::Version(_))
                ==> v.intents[op].state is Published
        }
}

/// What holds of a catalog that only requests have changed.
pub open spec fn sound(v: BasicView) -> bool {
    &&& principals_numbered(v)
    &&& epochs_reached(v)
    &&& intents_recorded(v)
    &&& names_unique(v)
}

/// A new catalog is sound.
pub proof fn law_fresh_is_sound()
    ensures
        sound(fresh()),
{
}

proof fn lemma_given_up_sound(
    v: BasicView,
    op: OperationId,
    reason: Seq<char>,
    error: Option<CatalogError>,
)
    requires
        sound(v),
        v.intents.dom().contains(op),
        !v.intents[op].state.ended(),
    ensures
        sound(given_up(v, op, reason, error)),
{
    let w = given_up(v, op, reason, error);
    assert(w.principals == v.principals && w.global_authz_epoch == v.global_authz_epoch);
    assert(w.collections == v.collections && w.files == v.files);
    assert forall|other: OperationId| #[trigger] w.intents.dom().contains(other) implies {
        &&& v.intents.dom().contains(other)
        &&& w.operations.dom().contains(other)
        &&& w.operations[other].kind is Publish
        &&& w.intents[other].actor == v.intents[other].actor
        &&& w.operations[other].result matches Some(OperationResult::Version(_))
            ==> w.intents[other].state is Published
    } by {}
}

proof fn lemma_bind_sound(v: BasicView, op: OperationId, fence: u64)
    requires
        sound(v),
    ensures
        sound(bind_outcome(v, op, fence).1),
{
    if v.intents.dom().contains(op) && !v.intents[op].state.ended() {
        lemma_given_up_sound(
            v,
            op,
            "candidate parent mismatch"@,
            Some(CatalogError::CandidateMismatch),
        );
    }
}

proof fn lemma_give_up_sound(
    v: BasicView,
    op: OperationId,
    fence: u64,
    reason: Seq<char>,
    error: Option<CatalogError>,
)
    requires
        sound(v),
    ensures
        sound(give_up_outcome(v, op, fence, reason, error).1),
{
    if v.intents.dom().contains(op) && !v.intents[op].state.ended() {
        lemma_given_up_sound(v, op, reason, error);
    }
}

#[verifier::spinoff_prover]
proof fn lemma_publish_sound(v: BasicView, op: OperationId, fence: u64)
    requires
        sound(v),
    ensures
        sound(publish_outcome(v, op, fence).1),
{
    let w = publish_outcome(v, op, fence).1;
    lemma_give_up_sound(
        v,
        op,
        fence,
        "authorization changed"@,
        Some(CatalogError::PermissionDenied),
    );
    lemma_give_up_sound(v, op, fence, "head CAS failed"@, Some(CatalogError::HeadConflict));
    lemma_give_up_sound(v, op, fence, "duplicate Commit"@, Some(CatalogError::DuplicateCommit));
    if publish_outcome(v, op, fence).0 is Ok && !has_published(v, op) {
        let file = v.intents[op].file;
        assert(w.principals == v.principals && w.global_authz_epoch == v.global_authz_epoch);
        assert(w.collections == v.collections);
        assert(w.files.dom() =~= v.files.dom());
        assert forall|a: FileId, b: FileId|
            #![trigger w.files.dom().contains(a), w.files.dom().contains(b)]
            w.files.dom().contains(a) && w.files.dom().contains(b) && w.files[a].collection
                == w.files[b].collection && w.files[a].name == w.files[b].name implies a == b by {
            assert(v.files.dom().contains(a) && v.files.dom().contains(b));
        }
        assert(names_unique(w));
        assert(epochs_reached(w));
        assert(intents_recorded(w));
    }
}

proof fn lemma_recover_sound(v: BasicView, op: OperationId)
    requires
        sound(v),
    ensures
        sound(claim_outcome(v, op).1),
        sound(recover_outcome(v, op).1),
{
    let claimed = claim_outcome(v, op);
    assert(sound(claimed.1));
    if let Ok(fence) = claimed.0 {
        lemma_bind_sound(claimed.1, op, fence);
        let bound = bind_outcome(claimed.1, op, fence).1;
        lemma_publish_sound(bound, op, fence);
    }
}

proof fn lemma_bumped_sound(
    v: BasicView,
    actor: PrincipalId,
    organization: PrincipalId,
    member: PrincipalId,
)
    requires
        sound(v),
        membership_problem(v, actor, organization, member) is None,
    ensures
        sound(bumped(v, organization, member)),
{
}

#[verifier::spinoff_prover]
proof fn lemma_state_sound(v: BasicView, id: PrincipalId, state: PrincipalState)
    requires
        sound(v),
    ensures
        sound(state_outcome(v, id, state).1),
{
}

#[verifier::spinoff_prover]
proof fn lemma_create_collection_sound(
    v: BasicView,
    actor: PrincipalId,
    owner: PrincipalId,
    text: Seq<char>,
    op: OperationId,
)
    requires
        sound(v),
    ensures
        sound(create_collection_outcome(v, actor, owner, text, op).1),
{
    law_names_stay_unique(v, actor, owner, CollectionId(0), text, op);
}

#[verifier::spinoff_prover]
proof fn lemma_create_file_sound(
    v: BasicView,
    actor: PrincipalId,
    collection: CollectionId,
    text: Seq<char>,
    op: OperationId,
)
    requires
        sound(v),
    ensures
        sound(create_file_outcome(v, actor, collection, text, op).1),
{
    law_names_stay_unique(v, actor, actor, collection, text, op);
}

#[verifier::spinoff_prover]
proof fn lemma_begin_sound(
    v: BasicView,
    actor: PrincipalId,
    file: FileId,
    op: OperationId,
    expected: Head,
)
    requires
        sound(v),
    ensures
        sound(begin_publish_outcome(v, actor, file, op, expected).1),
{
    let w = begin_publish_outcome(v, actor, file, op, expected).1;
    if !v.operations.dom().contains(op) {
        assert(!v.intents.dom().contains(op));
        assert(w.principals == v.principals && w.collections == v.collections && w.files
            == v.files);
    }
}

#[verifier::spinoff_prover]
proof fn lemma_register_sound(
    v: BasicView,
    graph: Graph,
    op: OperationId,
    fence: u64,
    commit: CommitId,
)
    requires
        sound(v),
    ensures
        sound(register_outcome(v, graph, op, fence, commit).1),
{
}

#[verifier::spinoff_prover]
proof fn lemma_simple_sound(
    v: BasicView,
    kind: PrincipalKind,
    retained: Set<CommitId>,
    read: Set<CommitId>,
)
    requires
        sound(v),
    ensures
        sound(after(v, Request::AllocateOperation)),
        sound(after(v, Request::CreatePrincipal { kind })),
        sound(after(v, Request::Hold { retained, read })),
        sound(after(v, Request::Reopen)),
{
}

/// Every request keeps a catalog sound.
#[verifier::spinoff_prover]
pub proof fn law_request_keeps_soundness(v: BasicView, request: Request)
    requires
        sound(v),
    ensures
        sound(after(v, request)),
{
    match request {
        Request::AllocateOperation | Request::Reopen => {
            lemma_simple_sound(v, PrincipalKind::User, Set::empty(), Set::empty());
        },
        Request::CreatePrincipal { kind } => {
            lemma_simple_sound(v, kind, Set::empty(), Set::empty());
        },
        Request::Hold { retained, read } => {
            lemma_simple_sound(v, PrincipalKind::User, retained, read);
        },
        Request::Grant { actor, organization, member, to } => {
            if membership_problem(v, actor, organization, member) is None {
                lemma_bumped_sound(v, actor, organization, member);
            }
        },
        Request::Revoke { actor, organization, member } => {
            if membership_problem(v, actor, organization, member) is None {
                lemma_bumped_sound(v, actor, organization, member);
            }
        },
        Request::SetState { id, state } => {
            lemma_state_sound(v, id, state);
        },
        Request::CreateCollection { actor, owner, text, op } => {
            lemma_create_collection_sound(v, actor, owner, text, op);
        },
        Request::CreateFile { actor, collection, text, op } => {
            lemma_create_file_sound(v, actor, collection, text, op);
        },
        Request::Begin { actor, file, op, expected } => {
            lemma_begin_sound(v, actor, file, op, expected);
        },
        Request::Register { graph, op, fence, commit } => {
            lemma_register_sound(v, graph, op, fence, commit);
        },
        Request::Bind { op, fence } => {
            lemma_bind_sound(v, op, fence);
        },
        Request::Publish { op, fence } => {
            lemma_publish_sound(v, op, fence);
        },
        Request::Abort { op, actor, fence } => {
            lemma_give_up_sound(v, op, fence, "caller abort"@, None);
        },
        Request::RecoveryAbort { op, fence, reason } => {
            lemma_give_up_sound(v, op, fence, reason, Some(CatalogError::InvalidIntent));
        },
        Request::Claim { op } => {
            lemma_recover_sound(v, op);
        },
        Request::Recover { op } => {
            lemma_recover_sound(v, op);
        },
    }
}

/// Every catalog that requests can bring about is sound.
pub proof fn law_every_catalog_is_sound(requests: Seq<Request>)
    ensures
        sound(after_all(fresh(), requests)),
    decreases requests.len(),
{
    if requests.len() > 0 {
        law_every_catalog_is_sound(requests.drop_last());
        law_request_keeps_soundness(
            after_all(fresh(), requests.drop_last()),
            requests.last(),
        );
    }
}

/// Changing a membership stops every publication that was begun before.
pub proof fn law_membership_change_stops_publication(
    v: BasicView,
    actor: PrincipalId,
    organization: PrincipalId,
    member: PrincipalId,
    memberships: Map<MemberKey, Capability>,
    op: OperationId,
    fence: u64,
)
    requires
        sound(v),
        membership_problem(v, actor, organization, member) is None,
        v.intents.dom().contains(op),
        !has_published(v, op),
    ensures
        publish_outcome(
            BasicView { memberships, ..bumped(v, organization, member) },
            op,
            fence,
        ).0 is Err,
{
}

/// Disabling or enabling a principal stops every publication that was begun before.
pub proof fn law_state_change_stops_publication(
    v: BasicView,
    id: PrincipalId,
    state: PrincipalState,
    op: OperationId,
    fence: u64,
)
    requires
        sound(v),
        state_outcome(v, id, state).0 is Ok,
        v.intents.dom().contains(op),
        !has_published(v, op),
    ensures
        publish_outcome(state_outcome(v, id, state).1, op, fence).0 is Err,
{
}

/// Enabling a principal again does not undo what disabling it did to the epochs: both went
/// on by two, and an intent that was claimed and bound before is given up on its next
/// publication, with a conflict where the principal may still write the file.
#[verifier::spinoff_prover]
pub proof fn law_enabling_again_revives_no_intent(
    v: BasicView,
    id: PrincipalId,
    op: OperationId,
    fence: u64,
)
    requires
        sound(v),
        v.principals.dom().contains(id),
        v.principals[id].state is Active,
        v.principals[id].authz_epoch < u64::MAX - 1,
        v.global_authz_epoch < u64::MAX - 1,
    ensures
        ({
            let disabled = state_outcome(v, id, PrincipalState::Disabled);
            let enabled = state_outcome(disabled.1, id, PrincipalState::Active);
            let w = enabled.1;
            &&& disabled.0 is Ok
            &&& enabled.0 is Ok
            &&& w.principals[id] == (Principal {
                authz_epoch: (v.principals[id].authz_epoch + 2) as u64,
                ..v.principals[id]
            })
            &&& w.global_authz_epoch == v.global_authz_epoch + 2
            &&& w.intents == v.intents
            &&& v.intents.dom().contains(op) && !v.intents[op].state.ended() && fenced(
                v,
                v.intents[op],
                fence,
            ) && v.intents[op].candidate is Some && file_problem(
                v,
                v.intents[op].actor,
                v.intents[op].file,
            ) is None ==> {
                &&& publish_outcome(w, op, fence).0 == Err::<FileVersion, CatalogError>(
                    CatalogError::HeadConflict,
                )
                &&& publish_outcome(w, op, fence).1.intents[op].state is Aborted
            }
        }),
{
    let disabled = state_outcome(v, id, PrincipalState::Disabled).1;
    let w = state_outcome(disabled, id, PrincipalState::Active).1;
    assert(w.principals.dom() =~= v.principals.dom());
    assert forall|other: PrincipalId| #[trigger] v.principals.dom().contains(other) implies
        w.principals[other].state == v.principals[other].state && w.principals[other].kind
        == v.principals[other].kind by {}
    if v.intents.dom().contains(op) {
        assert(v.operations.dom().contains(op));
        assert(file_problem(w, v.intents[op].actor, v.intents[op].file) == file_problem(
            v,
            v.intents[op].actor,
            v.intents[op].file,
        ));
    }
}

} // verus!
