//! What holds of claims, published commits and reader pins whatever is asked.
use vstd::prelude::*;

use crate::catalog::ids::{CommitId, CommitReceipt, FileId, OperationId, PrincipalId};
use crate::catalog::laws::{after, after_all, consistent, linear, listed, sound, Request};
use crate::catalog::rules::{
    actor_problem, bind_outcome, claim_outcome, fenced, fresh, given_up, handed_over,
    publish_outcome, recover_outcome, recovery_reason, resume_outcome, versions_of, CatalogView,
};
use crate::catalog::types::{CatalogError, FenceToken};

verus! {

/// Every intent is filed under its own operation.
pub open spec fn intents_filed(v: CatalogView) -> bool {
    forall|op: OperationId| #[trigger]
        v.intents.dom().contains(op) ==> v.intents[op].operation_id == op
}

/// No two intents share a claim, and no claim is still to come.
pub open spec fn claims_distinct(v: CatalogView) -> bool {
    &&& forall|op: OperationId| #[trigger]
        v.intents.dom().contains(op) ==> (v.intents[op].owner_fence matches Some(fence)
            ==> fence.number() < v.next_fence_nonce)
    &&& forall|a: OperationId, b: OperationId|
        #![trigger v.intents.dom().contains(a), v.intents.dom().contains(b)]
        v.intents.dom().contains(a) && v.intents.dom().contains(b) && v.intents[a].owner_fence
            is Some && v.intents[b].owner_fence is Some && v.intents[a].owner_fence->0.number()
            == v.intents[b].owner_fence->0.number() ==> a == b
}

/// No file has published a commit twice.
pub open spec fn commits_distinct(v: CatalogView) -> bool {
    forall|file: FileId, j: int, k: int|
        #![trigger listed(v, file, j), listed(v, file, k)]
        listed(v, file, j) && listed(v, file, k) && v.versions[file][j].commit_id
            == v.versions[file][k].commit_id ==> j == k
}

/// A commit is counted as pinned only while a reader holds it.
pub open spec fn pins_held(v: CatalogView) -> bool {
    forall|commit: CommitId| #[trigger]
        v.reader_pins.dom().contains(commit) ==> v.reader_pins[commit] > 0
}

pub open spec fn registered(v: CatalogView) -> bool {
    &&& intents_filed(v)
    &&& claims_distinct(v)
    &&& commits_distinct(v)
    &&& pins_held(v)
}

/// Where no claim is handed out and nothing is published, nothing changes here.
proof fn lemma_quiet(v: CatalogView, w: CatalogView)
    requires
        registered(v),
        w.versions == v.versions,
        w.reader_pins == v.reader_pins,
        w.next_fence_nonce >= v.next_fence_nonce,
        forall|op: OperationId| #[trigger]
            w.intents.dom().contains(op) ==> v.intents.dom().contains(op)
                && w.intents[op].operation_id == v.intents[op].operation_id && (
            w.intents[op].owner_fence is None || w.intents[op].owner_fence
                == v.intents[op].owner_fence),
    ensures
        registered(w),
{
    assert forall|file: FileId, j: int, k: int|
        #![trigger listed(w, file, j), listed(w, file, k)]
        listed(w, file, j) && listed(w, file, k) && w.versions[file][j].commit_id
            == w.versions[file][k].commit_id implies j == k by {
        assert(listed(v, file, j) && listed(v, file, k));
    }
}

proof fn lemma_given_up_registered(
    v: CatalogView,
    op: OperationId,
    reason: Seq<char>,
    error: Option<CatalogError>,
)
    requires
        registered(v),
        v.intents.dom().contains(op),
    ensures
        registered(given_up(v, op, reason, error)),
{
    lemma_quiet(v, given_up(v, op, reason, error));
}

/// A claim that is handed out is a new one.
proof fn lemma_claimed(v: CatalogView, w: CatalogView, op: OperationId, fence: FenceToken)
    requires
        registered(v),
        v.next_fence_nonce < u64::MAX,
        fence.number() == v.next_fence_nonce,
        w.next_fence_nonce == v.next_fence_nonce + 1,
        w.versions == v.versions,
        w.reader_pins == v.reader_pins,
        w.intents.dom() == v.intents.dom().insert(op),
        w.intents[op].operation_id == op,
        w.intents[op].owner_fence == Some(fence),
        forall|other: OperationId| #[trigger]
            v.intents.dom().contains(other) && other != op ==> w.intents[other]
                == v.intents[other],
    ensures
        registered(w),
{
    assert forall|other: OperationId| #[trigger] w.intents.dom().contains(other) implies
        w.intents[other].operation_id == other && (w.intents[other].owner_fence matches Some(held)
        ==> held.number() < w.next_fence_nonce) by {
        if other != op {
            assert(v.intents.dom().contains(other));
        }
    }
    assert forall|a: OperationId, b: OperationId|
        #![trigger w.intents.dom().contains(a), w.intents.dom().contains(b)]
        w.intents.dom().contains(a) && w.intents.dom().contains(b) && w.intents[a].owner_fence
            is Some && w.intents[b].owner_fence is Some && w.intents[a].owner_fence->0.number()
            == w.intents[b].owner_fence->0.number() implies a == b by {
        if a != op {
            assert(v.intents.dom().contains(a));
        }
        if b != op {
            assert(v.intents.dom().contains(b));
        }
    }
    assert forall|file: FileId, j: int, k: int|
        #![trigger listed(w, file, j), listed(w, file, k)]
        listed(w, file, j) && listed(w, file, k) && w.versions[file][j].commit_id
            == w.versions[file][k].commit_id implies j == k by {
        assert(listed(v, file, j) && listed(v, file, k));
    }
}

proof fn lemma_bind_registered(
    v: CatalogView,
    actor: PrincipalId,
    op: OperationId,
    fence: FenceToken,
)
    requires
        registered(v),
    ensures
        registered(bind_outcome(v, actor, op, fence).1),
{
    lemma_quiet(v, bind_outcome(v, actor, op, fence).1);
}

/// A published commit is new to its file.
#[verifier::spinoff_prover]
#[verifier::rlimit(30)]
proof fn lemma_publish_registered(
    v: CatalogView,
    actor: PrincipalId,
    op: OperationId,
    fence: Option<FenceToken>,
)
    requires
        consistent(v),
        registered(v),
    ensures
        registered(publish_outcome(v, actor, op, fence).1),
{
    let (r, w) = publish_outcome(v, actor, op, fence);
    if v.intents.dom().contains(op) && w != v {
        if r is Ok {
            let file = v.intents[op].file;
            let old_list = versions_of(v, file);
            let version = r->Ok_0;
            assert(w.versions == v.versions.insert(file, old_list.push(version)));
            let middle = CatalogView { versions: v.versions, ..w };
            lemma_quiet(v, middle);
            assert(linear(file, v.files[file].head, old_list)) by {
                assert(v.files.dom().contains(file));
            }
            assert forall|k: int| #[trigger] listed(v, file, k) implies v.versions[file][k].commit_id
                != version.commit_id by {
                assert(old_list[k].file == file);
            }
            assert forall|f: FileId, j: int, k: int|
                #![trigger listed(w, f, j), listed(w, f, k)]
                listed(w, f, j) && listed(w, f, k) && w.versions[f][j].commit_id
                    == w.versions[f][k].commit_id implies j == k by {
                if f != file || j < old_list.len() {
                    assert(listed(v, f, j) && w.versions[f][j] == v.versions[f][j]);
                }
                if f != file || k < old_list.len() {
                    assert(listed(v, f, k) && w.versions[f][k] == v.versions[f][k]);
                }
            }
        } else {
            lemma_quiet(v, w);
        }
    }
}

proof fn lemma_recover_registered(v: CatalogView, binding: Option<CommitReceipt>, op: OperationId)
    requires
        consistent(v),
        registered(v),
    ensures
        registered(recover_outcome(v, binding, op).1),
{
    broadcast use crate::catalog::types::lemma_token;

    if v.intents.dom().contains(op) && !v.intents[op].state.ended() {
        let claim = claim_outcome(v, op);
        if claim.0 is Ok {
            let fence = claim.0->Ok_0;
            let c = claim.1;
            assert(c.intents.dom() =~= v.intents.dom().insert(op));
            lemma_claimed(v, c, op, fence);
            crate::catalog::laws::lemma_claim_consistent(v, op);
            match binding {
                None => {
                    lemma_given_up_registered(
                        c,
                        op,
                        "DAG operation binding missing during recovery"@,
                        Some(CatalogError::InvalidIntent),
                    );
                },
                Some(receipt) => {
                    lemma_resume_registered(c, op, fence, receipt);
                    let end = resume_outcome(c, op, fence, receipt);
                    if end.0 is Err && !end.1.intents[op].state.ended() {
                        let error = end.0->Err_0;
                        lemma_given_up_registered(
                            end.1,
                            op,
                            recovery_reason(error),
                            Some(error),
                        );
                    }
                },
            }
        }
    }
}

proof fn lemma_resume_registered(
    v: CatalogView,
    op: OperationId,
    fence: FenceToken,
    receipt: CommitReceipt,
)
    requires
        consistent(v),
        registered(v),
        v.intents.dom().contains(op),
        !v.intents[op].state.ended(),
        fenced(v, v.intents[op], fence),
    ensures
        registered(resume_outcome(v, op, fence, receipt).1),
        resume_outcome(v, op, fence, receipt).1.intents.dom().contains(op),
{
    let actor = v.intents[op].actor;
    if actor_problem(v, actor, v.intents[op]) is None {
        if !(v.handoffs.dom().contains(op) && v.handoffs[op].receipt != receipt) {
            let w = if v.handoffs.dom().contains(op) {
                v
            } else {
                CatalogView { handoffs: v.handoffs.insert(op, handed_over(receipt)), ..v }
            };
            lemma_quiet(v, w);
            crate::catalog::laws::lemma_handoff_consistent(v, w);
            lemma_bind_registered(w, actor, op, fence);
            crate::catalog::laws::lemma_bind_sound(w, actor, op, fence);
            let attached = bind_outcome(w, actor, op, fence);
            if attached.0 is Ok {
                lemma_publish_registered(attached.1, actor, op, Some(fence));
            }
        }
    }
}

#[verifier::spinoff_prover]
proof fn lemma_begin_registered(v: CatalogView, request: Request)
    requires
        registered(v),
        request is Begin,
        consistent(v),
    ensures
        registered(after(v, request)),
{
    broadcast use crate::catalog::types::lemma_token;

    let w = after(v, request);
    match request {
        Request::Begin { actor, file, op, expected, fence } => {
            if w.intents.dom().contains(op) && !v.intents.dom().contains(op) {
                assert(w.intents.dom() =~= v.intents.dom().insert(op));
                lemma_claimed(v, w, op, w.intents[op].owner_fence->0);
            } else {
                lemma_quiet(v, w);
            }
        },
        _ => {},
    }
}

#[verifier::spinoff_prover]
proof fn lemma_members_registered(v: CatalogView, request: Request)
    requires
        registered(v),
        request is Grant || request is Revoke || request is SetState,
    ensures
        registered(after(v, request)),
{
    lemma_quiet(v, after(v, request));
}

#[verifier::spinoff_prover]
proof fn lemma_creation_registered(v: CatalogView, request: Request)
    requires
        registered(v),
        request is CreateCollection || request is CreateFile,
    ensures
        registered(after(v, request)),
{
    lemma_quiet(v, after(v, request));
}

#[verifier::spinoff_prover]
proof fn lemma_abort_registered(v: CatalogView, request: Request)
    requires
        registered(v),
        request is Abort || request is RecoveryAbort || request is Register,
    ensures
        registered(after(v, request)),
{
    lemma_quiet(v, after(v, request));
}

#[verifier::spinoff_prover]
proof fn lemma_others_registered(v: CatalogView, request: Request)
    requires
        registered(v),
        request is CreatePrincipal || request is AllocateOperation || request is Reopen,
    ensures
        registered(after(v, request)),
{
    lemma_quiet(v, after(v, request));
}

#[verifier::spinoff_prover]
proof fn lemma_pins_registered(v: CatalogView, request: Request)
    requires
        registered(v),
        request is Pin || request is Unpin,
    ensures
        registered(after(v, request)),
{
    let w = after(v, request);
    assert(w.intents == v.intents && w.versions == v.versions);
    assert forall|file: FileId, j: int, k: int|
        #![trigger listed(w, file, j), listed(w, file, k)]
        listed(w, file, j) && listed(w, file, k) && w.versions[file][j].commit_id
            == w.versions[file][k].commit_id implies j == k by {
        assert(listed(v, file, j) && listed(v, file, k));
    }
    assert forall|commit: CommitId| #[trigger] w.reader_pins.dom().contains(commit) implies
        w.reader_pins[commit] > 0 by {
        if v.reader_pins.dom().contains(commit) {
            assert(v.reader_pins[commit] > 0);
        }
    }
}

/// Whatever is asked, intents stay filed, claims and commits distinct, and pins held.
pub proof fn lemma_requests_keep_registered(v: CatalogView, request: Request)
    requires
        consistent(v),
        registered(v),
    ensures
        registered(after(v, request)),
{
    match request {
        Request::Publish { actor, op, fence } => {
            lemma_publish_registered(v, actor, op, fence);
        },
        Request::Recover { binding, op } => {
            lemma_recover_registered(v, binding, op);
        },
        Request::Begin { .. } => {
            lemma_begin_registered(v, request);
        },
        Request::Bind { actor, op, fence } => {
            lemma_bind_registered(v, actor, op, fence);
        },
        Request::Pin { .. } | Request::Unpin { .. } => {
            lemma_pins_registered(v, request);
        },
        Request::Grant { .. } | Request::Revoke { .. } | Request::SetState { .. } => {
            lemma_members_registered(v, request);
        },
        Request::CreateCollection { .. } | Request::CreateFile { .. } => {
            lemma_creation_registered(v, request);
        },
        Request::Abort { .. } | Request::RecoveryAbort { .. } | Request::Register { .. } => {
            lemma_abort_registered(v, request);
        },
        _ => {
            lemma_others_registered(v, request);
        },
    }
}

/// Two claims of one catalog differ, and a claim on one operation moves no other.
pub proof fn law_claims_differ(
    v: CatalogView,
    first: OperationId,
    second: OperationId,
    actor: PrincipalId,
    fence: FenceToken,
)
    requires
        sound(v),
        first != second,
        v.intents.dom().contains(first),
        v.intents.dom().contains(second),
        v.intents[first].owner_fence == Some(fence),
        actor_problem(v, actor, v.intents[second]) is None,
    ensures
        v.intents[second].owner_fence != Some(fence),
        !v.intents[first].state.ended(),
        bind_outcome(v, actor, second, fence).0 == Err::<
            crate::catalog::types::PublicIntentView,
            CatalogError,
        >(CatalogError::FenceLost),
        bind_outcome(v, actor, second, fence).1 == v,
{
}

/// Every catalog that requests can bring about lists its versions in order: each of the
/// file, of the next generation, after the one before, with an identifier and a commit of
/// its own, and the head names the last.
pub proof fn law_versions_are_listed_in_order(requests: Seq<Request>, file: FileId)
    requires
        after_all(fresh(), requests).files.dom().contains(file),
    ensures
        ({
            let v = after_all(fresh(), requests);
            let list = versions_of(v, file);
            &&& linear(file, v.files[file].head, list)
            &&& forall|j: int, k: int|
                #![trigger list[j], list[k]]
                0 <= j < list.len() && 0 <= k < list.len() && (list[j].id == list[k].id
                    || list[j].commit_id == list[k].commit_id) ==> j == k
        }),
{
    let v = after_all(fresh(), requests);
    let list = versions_of(v, file);
    crate::catalog::laws::law_every_reachable_catalog_is_sound(requests);
    assert forall|j: int, k: int|
        #![trigger list[j], list[k]]
        0 <= j < list.len() && 0 <= k < list.len() && (list[j].id == list[k].id
            || list[j].commit_id == list[k].commit_id) implies j == k by {
        assert(listed(v, file, j) && listed(v, file, k));
    }
}

/// How many of the requests are allocations of an operation identifier.
pub open spec fn allocations(requests: Seq<Request>) -> nat
    decreases requests.len(),
{
    if requests.len() == 0 {
        0
    } else {
        allocations(requests.drop_last()) + if requests.last() is AllocateOperation {
            1nat
        } else {
            0
        }
    }
}

#[verifier::spinoff_prover]
proof fn lemma_members_keep_counter(v: CatalogView, request: Request)
    requires
        request is Grant || request is Revoke || request is SetState || request is Pin
            || request is Unpin,
    ensures
        after(v, request).next_operation == v.next_operation,
{
}

#[verifier::spinoff_prover]
proof fn lemma_creation_keeps_counter(v: CatalogView, request: Request)
    requires
        request is CreateCollection || request is CreateFile || request is CreatePrincipal
            || request is Reopen,
    ensures
        after(v, request).next_operation == v.next_operation,
{
}

#[verifier::spinoff_prover]
proof fn lemma_begin_keeps_counter(v: CatalogView, request: Request)
    requires
        request is Begin || request is Register || request is Bind,
    ensures
        after(v, request).next_operation == v.next_operation,
{
}

#[verifier::spinoff_prover]
proof fn lemma_end_keeps_counter(v: CatalogView, request: Request)
    requires
        request is Publish || request is Abort || request is RecoveryAbort,
    ensures
        after(v, request).next_operation == v.next_operation,
{
}

#[verifier::spinoff_prover]
proof fn lemma_recover_keeps_counter(v: CatalogView, request: Request)
    requires
        request is Recover,
    ensures
        after(v, request).next_operation == v.next_operation,
{
}

/// No request but an allocation touches the counter of operation identifiers.
proof fn lemma_counter_kept(v: CatalogView, request: Request)
    requires
        !(request is AllocateOperation),
    ensures
        after(v, request).next_operation == v.next_operation,
{
    match request {
        Request::Begin { .. } | Request::Register { .. } | Request::Bind { .. } => {
            lemma_begin_keeps_counter(v, request);
        },
        Request::Publish { .. } | Request::Abort { .. } | Request::RecoveryAbort { .. } => {
            lemma_end_keeps_counter(v, request);
        },
        Request::Recover { .. } => {
            lemma_recover_keeps_counter(v, request);
        },
        Request::CreateCollection { .. } | Request::CreateFile { .. }
        | Request::CreatePrincipal { .. } | Request::Reopen => {
            lemma_creation_keeps_counter(v, request);
        },
        _ => {
            lemma_members_keep_counter(v, request);
        },
    }
}

/// No operation identifier is handed out twice: along any history the next one to be handed
/// out is the number of allocations so far, until the numbers have run out.
pub proof fn law_operation_ids_are_not_reused(requests: Seq<Request>)
    ensures
        after_all(fresh(), requests).next_operation == if allocations(requests) < u64::MAX {
            allocations(requests) as int
        } else {
            u64::MAX as int
        },
    decreases requests.len(),
{
    if requests.len() > 0 {
        let before = requests.drop_last();
        law_operation_ids_are_not_reused(before);
        if !(requests.last() is AllocateOperation) {
            lemma_counter_kept(after_all(fresh(), before), requests.last());
        }
    }
}

proof fn lemma_allocations_grow(requests: Seq<Request>, i: int, j: int)
    requires
        0 <= i <= j <= requests.len(),
    ensures
        allocations(requests.take(i)) <= allocations(requests.take(j)),
        i < j && requests[i] is AllocateOperation ==> allocations(requests.take(i)) < allocations(
            requests.take(j),
        ),
    decreases j - i,
{
    if i < j {
        lemma_allocations_grow(requests, i, j - 1);
        assert(requests.take(j).drop_last() =~= requests.take(j - 1));
        assert(requests.take(j).last() == requests[j - 1]);
    }
}

/// Two allocations of one history that succeed hand out different identifiers, the later one
/// the larger.
pub proof fn law_two_allocations_differ(requests: Seq<Request>, i: int, j: int)
    requires
        0 <= i < j < requests.len(),
        requests[i] is AllocateOperation,
        requests[j] is AllocateOperation,
        after_all(fresh(), requests.take(j)).next_operation < u64::MAX,
    ensures
        after_all(fresh(), requests.take(i)).next_operation < after_all(
            fresh(),
            requests.take(j),
        ).next_operation,
{
    law_operation_ids_are_not_reused(requests.take(i));
    law_operation_ids_are_not_reused(requests.take(j));
    lemma_allocations_grow(requests, i, j);
}

} // verus!
