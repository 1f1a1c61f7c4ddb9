//! What the single-coordinator catalog promises.
use vstd::prelude::*;

use crate::catalog::graph::Graph;
use crate::catalog::ids::{CollectionId, CommitId, CommitReceipt, FileId, OperationId, PrincipalId};
use crate::catalog::types::{CatalogError, FileVersion, Head, OperationResult};
use crate::model::rules::{
    any_version, bind_outcome, create_collection_outcome, create_file_outcome, give_up_outcome,
    publish_outcome, recover_outcome, reclaimable, register_outcome, reopened, versions_of,
    BasicView,
};
use crate::model::types::IntentView;

verus! {

/// Whether the operation has a version as its result.
pub open spec fn has_published(v: BasicView, op: OperationId) -> bool {
    v.operations.dom().contains(op) && v.operations[op].result matches Some(
        OperationResult::Version(_),
    )
}

/// A publication that succeeded answers the same version again, whoever asks, and
/// changes nothing more.
pub proof fn law_publish_is_idempotent(v: BasicView, op: OperationId, fence: u64, again: u64)
    requires
        publish_outcome(v, op, fence).0 is Ok,
        v.operations.dom().contains(op),
    ensures
        publish_outcome(publish_outcome(v, op, fence).1, op, again) == publish_outcome(v, op, fence),
{
}

/// A publication moves the head of its file by one generation to the version that it
/// adds, and touches no other file.
pub proof fn law_publish_moves_head_by_one(v: BasicView, op: OperationId, fence: u64)
    requires
        !has_published(v, op),
        publish_outcome(v, op, fence).0 is Ok,
    ensures
        ({
            let (r, after) = publish_outcome(v, op, fence);
            let version = r->Ok_0;
            let file = v.intents[op].file;
            &&& version.file == file
            &&& version.generation == v.files[file].head.generation + 1
            &&& version.parent_version_id == v.files[file].head.version_id
            &&& after.files[file].head == (Head {
                version_id: Some(version.id),
                generation: version.generation,
            })
            &&& after.versions[file] == versions_of(v, file).push(version)
            &&& after.intents[op].state is Published
            &&& forall|other: FileId|
                other != file ==> #[trigger] after.files.dom().contains(other)
                    == v.files.dom().contains(other) && after.files[other] == v.files[other]
                    && versions_of(after, other) == versions_of(v, other)
        }),
{
}

/// Of two publications begun on one head, at most one succeeds.
pub proof fn law_one_publication_per_head(
    v: BasicView,
    first: OperationId,
    second: OperationId,
    fence: u64,
    later: u64,
)
    requires
        first != second,
        !has_published(v, first),
        !has_published(v, second),
        publish_outcome(v, first, fence).0 is Ok,
        v.intents.dom().contains(second),
        v.intents[second].file == v.intents[first].file,
        v.intents[second].expected_head == v.intents[first].expected_head,
    ensures
        publish_outcome(publish_outcome(v, first, fence).1, second, later).0 is Err,
{
    let after = publish_outcome(v, first, fence).1;
    assert(after.intents[second] == v.intents[second]);
    assert(after.files[v.intents[first].file].head.generation
        == v.intents[first].expected_head.generation + 1);
}

/// A publication that was given up answers the same error again, and changes nothing
/// more.
pub proof fn law_failure_is_sticky(v: BasicView, op: OperationId, fence: u64, again: u64)
    requires
        v.operations.dom().contains(op),
        !has_published(v, op),
        v.intents.dom().contains(op),
        !v.intents[op].state.ended(),
        publish_outcome(v, op, fence).1.intents[op].state is Aborted,
    ensures
        publish_outcome(v, op, fence).0 is Err,
        publish_outcome(publish_outcome(v, op, fence).1, op, again) == publish_outcome(v, op, fence),
{
}

/// An intent that has ended stays as it is: it takes no receipt and no candidate, and
/// cannot be given up or recovered into anything else.
pub proof fn law_ended_is_final(
    v: BasicView,
    graph: Graph,
    op: OperationId,
    fence: u64,
    commit: CommitId,
    reason: Seq<char>,
    error: Option<CatalogError>,
)
    requires
        v.intents.dom().contains(op),
        v.intents[op].state.ended(),
    ensures
        register_outcome(v, graph, op, fence, commit).0 is Err,
        register_outcome(v, graph, op, fence, commit).1 == v,
        bind_outcome(v, op, fence).1 == v,
        give_up_outcome(v, op, fence, reason, error).1 == v,
        recover_outcome(v, op).1 == v,
{
}

/// After a crash no claim from before counts: an open intent can be driven by nobody
/// until it is claimed anew.
pub proof fn law_reopen_voids_claims(
    v: BasicView,
    graph: Graph,
    op: OperationId,
    fence: u64,
    commit: CommitId,
    reason: Seq<char>,
    error: Option<CatalogError>,
)
    requires
        v.intents.dom().contains(op),
        !v.intents[op].state.ended(),
        !has_published(v, op),
    ensures
        register_outcome(reopened(v), graph, op, fence, commit).0 == Err::<
            CommitReceipt,
            CatalogError,
        >(CatalogError::FenceLost),
        publish_outcome(reopened(v), op, fence).0 == Err::<FileVersion, CatalogError>(
            CatalogError::FenceLost,
        ),
        give_up_outcome(reopened(v), op, fence, reason, error).0 == Err::<(), CatalogError>(
            CatalogError::FenceLost,
        ),
        v.dag_index.dom().contains(op) ==> bind_outcome(reopened(v), op, fence).0 == Err::<
            IntentView,
            CatalogError,
        >(CatalogError::FenceLost),
{
}

/// A crash keeps everything recorded but the claims.
pub proof fn law_reopen_keeps_records(v: BasicView, op: OperationId)
    ensures
        reopened(v).files == v.files,
        reopened(v).versions == v.versions,
        reopened(v).operations == v.operations,
        reopened(v).dag_index == v.dag_index,
        reopened(v).intents.dom() == v.intents.dom(),
        v.intents.dom().contains(op) ==> {
            &&& reopened(v).intents[op].state == v.intents[op].state
            &&& reopened(v).intents[op].candidate == v.intents[op].candidate
            &&& reopened(v).intents[op].owner_fence is None
        },
{
    assert(reopened(v).intents.dom() =~= v.intents.dom());
}

/// Recovering an intent whose receipt is there ends it, published or given up, as long as
/// its file and collection are there and the generations last.
pub proof fn law_recovery_ends_the_intent(v: BasicView, op: OperationId)
    requires
        v.intents.dom().contains(op),
        !v.intents[op].state.ended(),
        v.intents[op].owner_fence is None,
        v.intents[op].expected_head.generation < u64::MAX,
        v.files.dom().contains(v.intents[op].file),
        v.collections.dom().contains(v.files[v.intents[op].file].collection),
        v.dag_index.dom().contains(op),
        !has_published(v, op),
    ensures
        recover_outcome(v, op).1.intents[op].state.ended(),
{
}

/// Recovering an intent without a receipt leaves it open.
pub proof fn law_recovery_without_receipt_keeps_it_open(v: BasicView, op: OperationId)
    requires
        v.intents.dom().contains(op),
        !v.intents[op].state.ended(),
        v.intents[op].owner_fence is None,
        !v.dag_index.dom().contains(op),
    ensures
        recover_outcome(v, op).0 is Ok,
        recover_outcome(v, op).1.intents[op].state == v.intents[op].state,
{
}

/// What is published, retained or read is not reclaimed.
pub proof fn law_held_commits_are_not_reclaimed(v: BasicView, op: OperationId)
    requires
        v.dag_index.dom().contains(op),
        ({
            let commit = v.dag_index[op].receipt.commit_id;
            any_version(v, commit) || v.retention_roots.contains(commit) || v.reader_pins.contains(
                commit,
            )
        }),
    ensures
        !reclaimable(v, op),
{
}

/// The commit that an operation publishes is not reclaimed.
pub proof fn law_published_is_not_reclaimed(v: BasicView, op: OperationId, fence: u64)
    requires
        !has_published(v, op),
        publish_outcome(v, op, fence).0 is Ok,
        v.dag_index.dom().contains(op),
        v.intents[op].candidate is Some,
        v.intents[op].candidate->0.receipt == v.dag_index[op].receipt,
    ensures
        !reclaimable(publish_outcome(v, op, fence).1, op),
{
    let (r, after) = publish_outcome(v, op, fence);
    let file = v.intents[op].file;
    let list = after.versions[file];
    assert(list[list.len() - 1].commit_id == v.dag_index[op].receipt.commit_id);
}

/// A request to make a collection that succeeded answers the same again, and changes
/// nothing more.
pub proof fn law_create_collection_is_idempotent(
    v: BasicView,
    actor: PrincipalId,
    owner: PrincipalId,
    text: Seq<char>,
    op: OperationId,
)
    requires
        create_collection_outcome(v, actor, owner, text, op).0 is Ok,
    ensures
        create_collection_outcome(
            create_collection_outcome(v, actor, owner, text, op).1,
            actor,
            owner,
            text,
            op,
        ) == create_collection_outcome(v, actor, owner, text, op),
{
}

/// A request to make a file that succeeded answers the same again, and changes nothing
/// more.
pub proof fn law_create_file_is_idempotent(
    v: BasicView,
    actor: PrincipalId,
    collection: CollectionId,
    text: Seq<char>,
    op: OperationId,
)
    requires
        create_file_outcome(v, actor, collection, text, op).0 is Ok,
    ensures
        create_file_outcome(
            create_file_outcome(v, actor, collection, text, op).1,
            actor,
            collection,
            text,
            op,
        ) == create_file_outcome(v, actor, collection, text, op),
{
}

/// Whether no owner has two collections, and no collection two files, of one name.
pub open spec fn names_unique(v: BasicView) -> bool {
    &&& forall|a: CollectionId, b: CollectionId|
        #![trigger v.collections.dom().contains(a), v.collections.dom().contains(b)]
        v.collections.dom().contains(a) && v.collections.dom().contains(b) && v.collections[a].owner
            == v.collections[b].owner && v.collections[a].name == v.collections[b].name ==> a == b
    &&& forall|a: FileId, b: FileId|
        #![trigger v.files.dom().contains(a), v.files.dom().contains(b)]
        v.files.dom().contains(a) && v.files.dom().contains(b) && v.files[a].collection
            == v.files[b].collection && v.files[a].name == v.files[b].name ==> a == b
}

/// Making collections and files keeps names unique.
pub proof fn law_names_stay_unique(
    v: BasicView,
    actor: PrincipalId,
    owner: PrincipalId,
    collection: CollectionId,
    text: Seq<char>,
    op: OperationId,
)
    requires
        names_unique(v),
    ensures
        names_unique(create_collection_outcome(v, actor, owner, text, op).1),
        names_unique(create_file_outcome(v, actor, collection, text, op).1),
{
}

} // verus!
