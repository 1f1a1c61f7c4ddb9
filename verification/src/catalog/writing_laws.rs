//! What reading and writing files owes to the actor of a store.
use vstd::prelude::*;

use crate::bytes::splice;
use crate::catalog::dag::{DagOperationBindingState, OperationBinding};
use crate::catalog::dag_bind::{commit_at, receipt_at};
use crate::catalog::dag_leaves::{
    base_extents, base_leaves, from_leaf, from_patch, leaf_right, map_leaves,
};
use crate::catalog::dag_patch::{
    collides, law_patched_bytes, overlaid, patch_fits, patch_problem, patch_too_large, patches_fit,
    patches_overlap, resized, PatchView,
};
use crate::catalog::dag_read::snapshot_at;
use crate::catalog::graph::{extends, map_bytes, map_extents, node_sound, Graph};
use crate::catalog::ids::{CommitId, FileId, NodeId, OperationId, PrincipalId, VersionId};
use crate::catalog::node::{CommitNode, DagError, NodeKind, NodeView, SnapshotNode};
use crate::catalog::publication_laws::{
    continues_base, drives, has_commit, law_publication_begins, law_publication_leaves,
    law_published_version_describes_its_candidate, law_ready_intents_are_published,
    law_receipts_are_attached, law_receipts_are_handed_over, law_unready_intents_are_answered,
    law_versions_are_found, lemma_first_named, may_use, recorded_as, unchanged_since,
};
use crate::catalog::reference_store::{
    begin_write_outcome, dag_failure, located, operation_view, pinned_for, read_answer, reported,
    terminal_of, NativeError, OperationTerminal, OperationViewResult, SnapshotHandle, Store,
    Version,
};
use crate::catalog::rules::{
    bind_outcome, file_problem, pins, publish_outcome, register_outcome, unless, versions_of,
    Bindings, CatalogView,
};
use crate::catalog::types::{
    Capability, CatalogError, FenceToken, Head, IntentState, OperationRecord, OperationResult,
};
use crate::catalog::write_txn::{
    build_failed, commit_holds, cut, finish_outcome, in_order, parent_of, patched_map, slot,
    total_bytes, written_bytes, TxnState, WriteTxn,
};

verus! {

/// Whether the range reaches into something that was gathered.
pub open spec fn taken(patches: Seq<PatchView>, start: u64, end: u64) -> bool {
    exists|i: int|
        0 <= i < patches.len() && (#[trigger] patches[i]).start < end && start < patches[i].end
}

/// Bytes are gathered for a free range of the file as long as they are at most eight mebibytes,
/// all of them together at most sixty-four, there are fewer than a thousand and twenty-four
/// ranges, and the file stays within four gibibytes.
pub proof fn law_free_ranges_are_gathered(txn: WriteTxn, start: u64, end: u64, len: nat)
    requires
        txn.state == TxnState::Open,
        start <= end,
        end - start == len,
        len <= 8_388_608,
        total_bytes(txn.gathered()) + len <= 67_108_864,
        txn.patches@.len() < 1024,
        end <= 4_294_967_296,
        txn.logical_size <= 4_294_967_296,
        !taken(txn.gathered(), start, end),
    ensures
        txn.write_problem(start, end, len) is None,
{
}

/// Why bytes are not gathered: the write is closed, the range does not have their number, they
/// are too many, too many in all or in too many ranges, they lie beyond what a file may hold,
/// or something was gathered for the range.
pub proof fn law_other_ranges_are_refused(txn: WriteTxn, start: u64, end: u64, len: nat)
    ensures
        ({
            let problem = txn.write_problem(start, end, len);
            let proper = txn.state == TxnState::Open && start <= end && end - start == len;
            let small = proper && 0 < len <= 8_388_608;
            let light = small && total_bytes(txn.gathered()) + len <= 67_108_864;
            let few = light && txn.patches@.len() != 1024;
            let within = few && end <= 4_294_967_296 && txn.logical_size <= 4_294_967_296;
            &&& txn.state != TxnState::Open ==> problem == Some(NativeError::TransactionClosed)
            &&& txn.state == TxnState::Open && !proper ==> problem == Some(
                NativeError::InvalidRange,
            )
            &&& proper && len == 0 ==> problem is None
            &&& proper && len > 8_388_608 ==> problem == Some(NativeError::WriteTooLarge)
            &&& small && !light ==> problem == Some(NativeError::TooManyPatchBytes)
            &&& light && !few ==> problem == Some(NativeError::TooManyWrites)
            &&& few && !within ==> problem == Some(NativeError::WriteTooLarge)
            &&& within && taken(txn.gathered(), start, end) ==> problem == Some(
                NativeError::OverlappingWrite,
            )
        }),
{
}

/// The bytes in flight are those of all patches.
pub proof fn law_bytes_in_flight_add_up(patches: Seq<PatchView>, patch: PatchView)
    ensures
        total_bytes(Seq::<PatchView>::empty()) == 0,
        total_bytes(patches.push(patch)) == total_bytes(patches) + patch.bytes.len(),
{
    assert(patches.push(patch).drop_last() =~= patches);
}

/// A patch goes behind all that begin before it and in front of the others.
pub proof fn law_patches_are_kept_in_order(patches: Seq<PatchView>, size: u64, start: u64)
    requires
        in_order(patches, size),
    ensures
        0 <= slot(patches, start) <= patches.len(),
        forall|i: int|
            0 <= i < patches.len() ==> ((#[trigger] patches[i]).start < start <==> i < slot(
                patches,
                start,
            )),
    decreases patches.len(),
{
    if patches.len() > 0 {
        let rest = patches.drop_last();
        assert forall|i: int| 0 <= i < rest.len() implies #[trigger] rest[i] == patches[i] by {
        }
        assert(in_order(rest, size));
        law_patches_are_kept_in_order(rest, size, start);
        let n = patches.len() - 1;
        assert(patches.last() == patches[n]);
        if patches.last().start < start {
            assert forall|i: int| 0 <= i < patches.len() implies (
            #[trigger] patches[i]).start < start by {
                if i < n {
                    assert(patches[i].end <= patches[n].start);
                }
            }
        } else {
            assert forall|i: int| 0 <= i < patches.len() implies ((
            #[trigger] patches[i]).start < start <==> i < slot(patches, start)) by {
                if i < n {
                    assert(rest[i] == patches[i]);
                }
            }
        }
    }
}

proof fn lemma_cut(patches: Seq<PatchView>, size: u64, limit: u64)
    requires
        in_order(patches, limit),
        size <= limit,
    ensures
        in_order(cut(patches, size), size),
        cut(patches, size).len() <= patches.len(),
        forall|i: int|
            0 <= i < cut(patches, size).len() ==> {
                let kept = #[trigger] cut(patches, size)[i];
                kept.start == patches[i].start && kept.end <= patches[i].end
            },
        forall|i: int|
            0 <= i < patches.len() ==> (i < cut(patches, size).len() <==> (
            #[trigger] patches[i]).start < size),
        forall|i: int|
            0 <= i < cut(patches, size).len() ==> (#[trigger] cut(patches, size)[i]).end == if patches[i].end
                > size {
                size
            } else {
                patches[i].end
            },
        forall|i: int|
            0 <= i < cut(patches, size).len() ==> (#[trigger] cut(patches, size)[i]).bytes
                == patches[i].bytes.take(cut(patches, size)[i].bytes.len() as int),
    decreases patches.len(),
{
    if patches.len() > 0 {
        let rest = patches.drop_last();
        let n = patches.len() - 1;
        assert forall|i: int| 0 <= i < rest.len() implies #[trigger] rest[i] == patches[i] by {
        }
        assert(in_order(rest, limit));
        lemma_cut(rest, size, limit);
        let last = patches.last();
        assert(last == patches[n]);
        let kept = cut(rest, size);
        let whole = cut(patches, size);
        if last.start < size {
            assert forall|i: int| 0 <= i < rest.len() implies (#[trigger] rest[i]).start < size by {
                assert(patches[i].end <= patches[n].start);
            }
            if rest.len() > 0 {
                assert(rest[rest.len() - 1].start < size);
            }
            assert(kept.len() == rest.len());
            assert forall|i: int| 0 <= i < whole.len() implies whole[i] == (if i < n {
                kept[i]
            } else {
                whole[n]
            }) by {
            }
            assert(last.bytes.take(last.bytes.len() as int) =~= last.bytes);
            assert forall|i: int, j: int|
                #![trigger whole[i], whole[j]]
                0 <= i < j < whole.len() implies whole[i].end <= whole[j].start by {
                assert(patches[i].end <= patches[j].start);
                if j < n {
                    assert(kept[i].end <= kept[j].start);
                } else {
                    assert(kept[i].end <= rest[i].end);
                }
            }
        }
        assert forall|i: int| 0 <= i < patches.len() implies (i < whole.len() <==> (
        #[trigger] patches[i]).start < size) by {
            if i < n {
                assert(rest[i] == patches[i]);
            }
        }
    }
}

/// Cutting a write keeps the bytes in front of the cut: what it would have led to before, up to
/// the new size, is what it leads to now.
pub proof fn law_truncation_keeps_the_front(
    base: Seq<u8>,
    patches: Seq<PatchView>,
    before: u64,
    size: u64,
)
    requires
        in_order(patches, before),
        size <= before,
    ensures
        in_order(cut(patches, size), size),
        overlaid(resized(base, size as nat), cut(patches, size)) == overlaid(
            resized(base, before as nat),
            patches,
        ).take(size as int),
{
    lemma_cut(patches, size, before);
    let kept = cut(patches, size);
    let old_whole = overlaid(resized(base, before as nat), patches);
    let whole = overlaid(resized(base, size as nat), kept);
    assert(patches_fit(patches, before) && !patches_overlap(patches));
    assert(patches_fit(kept, size) && !patches_overlap(kept));
    if size > 0 {
        law_patched_bytes(base, patches, before, 0);
        law_patched_bytes(base, kept, size, 0);
    } else {
        lemma_overlaid_len(resized(base, 0), kept);
        lemma_overlaid_len(resized(base, before as nat), patches);
    }
    assert forall|at: int| 0 <= at < size implies whole[at] == old_whole[at] by {
        law_patched_bytes(base, patches, before, at);
        law_patched_bytes(base, kept, size, at);
        if exists|k: int|
            0 <= k < patches.len() && (#[trigger] patches[k]).start <= at < patches[k].end {
            let k = choose|k: int|
                0 <= k < patches.len() && (#[trigger] patches[k]).start <= at < patches[k].end;
            assert(k < kept.len());
            assert(kept[k].start <= at < kept[k].end);
            assert(kept[k].bytes == patches[k].bytes.take(kept[k].bytes.len() as int));
        } else {
            assert forall|k: int| 0 <= k < kept.len() implies !((
            #[trigger] kept[k]).start <= at < kept[k].end) by {
                assert(!(patches[k].start <= at < patches[k].end));
            }
        }
    }
    assert(whole =~= old_whole.take(size as int));
}

proof fn lemma_overlaid_len(base: Seq<u8>, patches: Seq<PatchView>)
    requires
        patches_fit(patches, base.len() as u64),
        base.len() <= u64::MAX,
    ensures
        overlaid(base, patches).len() == base.len(),
    decreases patches.len(),
{
    if patches.len() > 0 {
        let rest = patches.drop_last();
        assert forall|i: int| 0 <= i < rest.len() implies #[trigger] rest[i] == patches[i] by {
        }
        assert(patches_fit(rest, base.len() as u64));
        lemma_overlaid_len(base, rest);
        assert(patches.last() == patches[patches.len() - 1]);
        assert(splice(
            overlaid(base, rest),
            patches.last().start as int,
            patches.last().bytes,
        ).len() == base.len());
    }
}

/// The version of a file that a request means: the named one, or the head's.
pub open spec fn meant(v: CatalogView, file: FileId, version: Option<VersionId>) -> Option<
    VersionId,
> {
    if version is Some {
        version
    } else {
        v.files[file].head.version_id
    }
}

/// A version that is there is shown to one who may read the file, with its commit, the snapshot
/// of the commit and its size.
pub proof fn law_versions_are_shown(
    v: CatalogView,
    graph: Graph,
    actor: PrincipalId,
    file: FileId,
    version: Option<VersionId>,
    k: int,
    commit: CommitNode,
    snapshot: SnapshotNode,
)
    requires
        may_use(v, actor, file, Capability::Read),
        v.versions.dom().contains(file),
        0 <= k < v.versions[file].len(),
        meant(v, file, version) == Some(v.versions[file][k].id),
        forall|j: int| 0 <= j < k ==> (#[trigger] v.versions[file][j]).id != v.versions[file][k].id,
        graph.dom().contains(v.versions[file][k].commit_id),
        graph[v.versions[file][k].commit_id] == NodeView::Commit(commit),
        graph.dom().contains(commit.snapshot),
        graph[commit.snapshot] == NodeView::Snapshot(snapshot),
    ensures
        located(v, graph, actor, file, version) == Ok::<SnapshotHandle, NativeError>(
            SnapshotHandle {
                actor,
                file,
                version: Some(v.versions[file][k].id),
                commit: Some(v.versions[file][k].commit_id),
                snapshot: Some(commit.snapshot),
                len: snapshot.logical_size,
            },
        ),
{
    lemma_first_named(v.versions[file], v.versions[file][k].id, k);
}

/// A file without a version is shown empty, a version that is not there is not found, and one
/// who may not read is told so.
pub proof fn law_nothing_else_is_shown(
    v: CatalogView,
    graph: Graph,
    actor: PrincipalId,
    file: FileId,
    version: Option<VersionId>,
)
    ensures
        may_use(v, actor, file, Capability::Read) && meant(v, file, version) is None ==> located(
            v,
            graph,
            actor,
            file,
            version,
        ) == Ok::<SnapshotHandle, NativeError>(
            SnapshotHandle {
                actor,
                file,
                version: None,
                commit: None,
                snapshot: None,
                len: 0,
            },
        ),
        may_use(v, actor, file, Capability::Read) && meant(v, file, version) is Some && (
        v.versions.dom().contains(file) ==> forall|k: int|
            0 <= k < v.versions[file].len() ==> (#[trigger] v.versions[file][k]).id != meant(
                v,
                file,
                version,
            )->0) ==> located(v, graph, actor, file, version) == Err::<SnapshotHandle, NativeError>(
            NativeError::SnapshotNotFound,
        ),
        !may_use(v, actor, file, Capability::Read) ==> located(v, graph, actor, file, version)
            is Err && located(v, graph, actor, file, version)->Err_0 == NativeError::Catalog(
            file_problem(v, actor, file, Capability::Read)->0,
        ),
{
    if may_use(v, actor, file, Capability::Read) && meant(v, file, version) is Some {
        law_versions_are_found(
            versions_of(v, file),
            meant(v, file, version)->0,
        );
    }
}

/// A reader who may still read gets what it asks for of a version: as many bytes as the range
/// has, where the range lies within the version and the output has the room.
pub proof fn law_ranges_are_read(
    v: CatalogView,
    graph: Graph,
    handle: SnapshotHandle,
    start: u64,
    end: u64,
    room: nat,
    commit: CommitNode,
    snapshot: SnapshotNode,
    k: int,
)
    requires
        may_use(v, handle.actor, handle.file, Capability::Read),
        v.versions.dom().contains(handle.file),
        0 <= k < v.versions[handle.file].len(),
        handle.version == Some(v.versions[handle.file][k].id),
        handle.commit == Some(v.versions[handle.file][k].commit_id),
        graph.dom().contains(handle.commit->0),
        graph[handle.commit->0] == NodeView::Commit(commit),
        handle.snapshot == Some(commit.snapshot),
        graph.dom().contains(commit.snapshot),
        graph[commit.snapshot] == NodeView::Snapshot(snapshot),
        handle.len == snapshot.logical_size,
    ensures
        start <= end <= handle.len && end - start <= usize::MAX && end - start <= room
            ==> read_answer(v, graph, handle, start, end, room) == Ok::<nat, NativeError>(
            (end - start) as nat,
        ),
        start > end || end > handle.len ==> read_answer(v, graph, handle, start, end, room) == Err::<
            nat,
            NativeError,
        >(NativeError::InvalidRange),
        start <= end <= handle.len && end - start <= usize::MAX && end - start > room
            ==> read_answer(v, graph, handle, start, end, room) == Err::<nat, NativeError>(
            NativeError::OutputTooSmall,
        ),
{
    let list = versions_of(v, handle.file);
    assert(list[k].id == v.versions[handle.file][k].id);
}

/// One who may no longer read gets nothing.
pub proof fn law_lost_readers_get_nothing(
    v: CatalogView,
    graph: Graph,
    handle: SnapshotHandle,
    start: u64,
    end: u64,
    room: nat,
)
    requires
        !may_use(v, handle.actor, handle.file, Capability::Read),
    ensures
        read_answer(v, graph, handle, start, end, room) is Err,
        read_answer(v, graph, handle, start, end, room)->Err_0 == NativeError::Catalog(
            file_problem(v, handle.actor, handle.file, Capability::Read)->0,
        ),
{
}

/// Opening a version adds one pin to its commit, and opening an empty file none.
pub proof fn law_opening_pins_the_commit(v: CatalogView, handle: SnapshotHandle, other: CommitId)
    requires
        handle.commit matches Some(commit) ==> pins(v, commit) < u64::MAX,
    ensures
        handle.commit is None ==> pinned_for(v, handle) == v,
        handle.commit matches Some(commit) ==> pins(pinned_for(v, handle), commit) == pins(v, commit)
            + 1,
        handle.commit != Some(other) ==> pins(pinned_for(v, handle), other) == pins(v, other),
        pinned_for(v, handle) == (CatalogView {
            reader_pins: pinned_for(v, handle).reader_pins,
            ..v
        }),
{
}

/// A write begins on the head that is there: it starts from the bytes of that version and has
/// the claim on its intent.
pub proof fn law_writes_begin(
    v: CatalogView,
    graph: Graph,
    actor: PrincipalId,
    file: FileId,
    op: OperationId,
    base: SnapshotHandle,
)
    requires
        !v.operations.dom().contains(op),
        may_use(v, actor, file, Capability::Write),
        located(v, graph, actor, file, v.files[file].head.version_id) == Ok::<
            SnapshotHandle,
            NativeError,
        >(base),
        v.next_version < u64::MAX,
        v.next_fence_nonce < u64::MAX,
        v.files[file].head.generation < u64::MAX,
    ensures
        ({
            let (answer, w) = begin_write_outcome(v, graph, actor, file, v.files[file].head, op);
            &&& answer is Ok
            &&& (answer->Ok_0).0 == base
            &&& drives(w, actor, op, (answer->Ok_0).1)
            &&& w.intents[op].file == file
            &&& w.intents[op].expected_head == v.files[file].head
            &&& recorded_as(w, op, w.intents[op])
        }),
{
    law_publication_begins(v, actor, file, op, None);
}

/// A write does not begin where the base cannot be shown or the publication is not taken in.
pub proof fn law_writes_do_not_begin(
    v: CatalogView,
    graph: Graph,
    actor: PrincipalId,
    file: FileId,
    expected: Head,
    op: OperationId,
)
    ensures
        located(v, graph, actor, file, expected.version_id) is Err ==> begin_write_outcome(
            v,
            graph,
            actor,
            file,
            expected,
            op,
        ).0 is Err && begin_write_outcome(v, graph, actor, file, expected, op).0->Err_0 == located(
            v,
            graph,
            actor,
            file,
            expected.version_id,
        )->Err_0 && begin_write_outcome(v, graph, actor, file, expected, op).1 == v,
        located(v, graph, actor, file, expected.version_id) is Ok && !v.operations.dom().contains(op)
            && may_use(v, actor, file, Capability::Write) && v.files[file].head != expected
            ==> begin_write_outcome(v, graph, actor, file, expected, op).0 is Err
            && begin_write_outcome(v, graph, actor, file, expected, op).0->Err_0
            == NativeError::Catalog(CatalogError::HeadConflict),
{
}

/// A snapshot can be patched where it is the base that was begun on, the size is within four
/// gibibytes, and the patches are in order, within the size and of eight mebibytes at most.
pub proof fn law_ordered_patches_can_be_applied(
    graph: Graph,
    base: Option<NodeId>,
    base_len: u64,
    size: u64,
    patches: Seq<PatchView>,
)
    requires
        size <= 4_294_967_296,
        base matches Some(id) ==> graph.dom().contains(id) && (
        graph[id] matches NodeView::Snapshot(snapshot) && snapshot.logical_size == base_len),
        forall|i: int|
            0 <= i < patches.len() ==> {
                let patch = #[trigger] patches[i];
                patch.start < patch.end <= size && patch.bytes.len() == patch.end - patch.start
                    && patch.bytes.len() <= 8_388_608
            },
        forall|i: int, j: int|
            #![trigger patches[i], patches[j]]
            0 <= i < j < patches.len() ==> patches[i].end <= patches[j].start,
    ensures
        patch_problem(graph, base, base_len, size, patches) is None,
{
}

/// Why a snapshot cannot be patched: too large a file, another base, patches that overlap, or
/// one that does not fit or is too large.
pub proof fn law_other_patches_are_refused(
    graph: Graph,
    base: Option<NodeId>,
    base_len: u64,
    size: u64,
    patches: Seq<PatchView>,
    i: int,
    j: int,
)
    ensures
        ({
            let problem = patch_problem(graph, base, base_len, size, patches);
            &&& size > 4_294_967_296 ==> problem == Some(
                DagError::InvalidSnapshot("invalid patched Snapshot size"),
            )
            &&& size <= 4_294_967_296 && base is Some && !graph.dom().contains(base->0) ==> problem
                == Some(DagError::MissingNode(base->0))
            &&& size <= 4_294_967_296 && base is Some && graph.dom().contains(base->0) && !(
            graph[base->0] is Snapshot) ==> problem == Some(DagError::InvalidReference(base->0))
            &&& size <= 4_294_967_296 && base is Some && graph.dom().contains(base->0)
                && graph[base->0] is Snapshot && graph[base->0]->Snapshot_0.logical_size != base_len
                ==> problem == Some(DagError::InvalidSnapshot("base Snapshot size mismatch"))
            &&& 0 <= i && j == i + 1 && j < patches.len() && patches[i].end > patches[j].start
                ==> problem is Some
            &&& 0 <= i < patches.len() && (patches[i].start >= patches[i].end || patches[i].end > size
                || patches[i].end - patches[i].start != patches[i].bytes.len()
                || patches[i].bytes.len() > 8_388_608) ==> problem is Some
        }),
{
    if 0 <= i < patches.len() {
        assert(patches[i] == patches[i]);
        if patches_fit(patches, size) {
            assert(patch_fits(patches[i], size));
        }
        if patches[i].bytes.len() > 8_388_608 {
            assert(patch_too_large(patches));
        }
    }
    if 0 <= i && j == i + 1 && j < patches.len() && patches[i].end > patches[j].start {
        assert(patches_overlap(patches));
    }
}

/// Whether the version of the file that the intent was begun on has the given commit, or there
/// is neither.
pub open spec fn begun_on(v: CatalogView, op: OperationId, parent: Option<CommitId>) -> bool {
    let intent = v.intents[op];
    &&& intent.base == if intent.expected_head.version_id is Some {
        Some(intent.expected_head)
    } else {
        None
    }
    &&& match intent.expected_head.version_id {
        None => parent is None,
        Some(id) => v.versions.dom().contains(intent.file) && exists|k: int|
            0 <= k < v.versions[intent.file].len() && (#[trigger] v.versions[intent.file][k]).id
                == id && parent == Some(v.versions[intent.file][k].commit_id) && forall|j: int|
                0 <= j < k ==> (#[trigger] v.versions[intent.file][j]).id != id,
    }
}

/// A finished commit is published: with the claim on the intent, on a head and an authorization
/// that have not changed, a new commit whose parent is the version that the write was begun on
/// becomes the next version, and the graph lets go of its binding.
#[verifier::spinoff_prover]
pub proof fn law_finished_commits_are_published(
    v: CatalogView,
    graph: Graph,
    bindings: Bindings,
    actor: PrincipalId,
    op: OperationId,
    fence: FenceToken,
    commit_id: CommitId,
    commit: CommitNode,
    snapshot: SnapshotNode,
)
    requires
        drives(v, actor, op, fence),
        recorded_as(v, op, v.intents[op]),
        !v.handoffs.dom().contains(op),
        !bindings.dom().contains(op),
        graph.dom().contains(commit_id),
        graph[commit_id] == NodeView::Commit(commit),
        NodeView::Commit(commit).digest() == commit_id@,
        graph.dom().contains(commit.snapshot),
        graph[commit.snapshot] == NodeView::Snapshot(snapshot),
        begun_on(v, op, commit.parent),
        v.principals[actor].authz_epoch == v.intents[op].authz_epoch,
        v.files[v.intents[op].file].head == v.intents[op].expected_head,
        !has_commit(v, v.intents[op].file, commit_id),
        v.intents[op].expected_head.generation < u64::MAX,
    ensures
        ({
            let (answer, w, after) = finish_outcome(
                v,
                graph,
                bindings,
                actor,
                op,
                fence,
                commit_id,
            );
            let file = v.intents[op].file;
            let stored = w.versions[file].last();
            &&& answer is Ok
            &&& answer->Ok_0.id == v.intents[op].version_id
            &&& answer->Ok_0.file == file
            &&& answer->Ok_0.size == snapshot.logical_size
            &&& answer->Ok_0.generation == v.intents[op].expected_head.generation + 1
            &&& answer->Ok_0.parent_version_id == v.intents[op].expected_head.version_id
            &&& stored.id == answer->Ok_0.id
            &&& stored.commit_id == commit_id
            &&& stored.size == snapshot.logical_size
            &&& stored.digest == snapshot.content_digest
            &&& w.files[file].head == (Head {
                version_id: Some(stored.id),
                generation: stored.generation,
            })
            &&& w.intents[op].state == IntentState::Published
            &&& after == bindings.insert(
                op,
                OperationBinding { commit_id, state: DagOperationBindingState::Tombstoned },
            )
        }),
{
    let receipt = receipt_at(graph, op, commit_id)->0;
    assert(receipt.commit_id == commit_id && receipt.parent == commit.parent);
    law_receipts_are_handed_over(v, actor, op, fence, receipt);
    let taken = register_outcome(v, actor, op, fence, receipt, true).1;
    assert(drives(taken, actor, op, fence));
    let intent = v.intents[op];
    if let Some(id) = intent.expected_head.version_id {
        let list = v.versions[intent.file];
        let k = choose|k: int|
            0 <= k < list.len() && (#[trigger] list[k]).id == id && commit.parent == Some(
                list[k].commit_id,
            ) && forall|j: int| 0 <= j < k ==> (#[trigger] list[j]).id != id;
        assert(taken.versions[intent.file][k].id == id);
    }
    assert(continues_base(
        taken,
        taken.intents[op],
        taken.handoffs[op].receipt,
    ));
    law_receipts_are_attached(taken, actor, op, fence);
    let bound = bind_outcome(taken, actor, op, fence).1;
    assert(recorded_as(bound, op, bound.intents[op]));
    assert(unchanged_since(bound, op));
    law_ready_intents_are_published(bound, actor, op, fence);
    law_published_version_describes_its_candidate(bound, actor, op, fence);
    law_publication_leaves(bound, actor, op, fence);
    let w = publish_outcome(bound, actor, op, Some(fence)).1;
    let held = bindings.insert(
        op,
        OperationBinding { commit_id, state: DagOperationBindingState::Active },
    );
    assert(held.insert(
        op,
        OperationBinding { commit_id, state: DagOperationBindingState::Tombstoned },
    ) =~= bindings.insert(
        op,
        OperationBinding { commit_id, state: DagOperationBindingState::Tombstoned },
    ));
    assert(finish_outcome(v, graph, bindings, actor, op, fence, commit_id).1 == w);
}

/// A write on the head that is there is committed: its actor may read and write the file, it
/// has the claim, nothing has changed since it was begun, and the map stays within a million
/// extents. Only two different nodes with one identifier, or a commit that was published
/// before, stand against it.
#[verifier::spinoff_prover]
pub proof fn law_writes_are_committed(
    txn: WriteTxn,
    before: Store,
    after: Store,
    r: Result<Version, NativeError>,
    parent: Option<CommitId>,
)
    requires
        before.wf(),
        after.wf(),
        extends(before.dag.graph(), after.dag.graph()),
        txn.committed(before, after, r),
        txn.state == TxnState::Open,
        txn.wf(),
        txn.logical_size <= 4_294_967_296,
        txn.base_snapshot matches Some(id) ==> before.dag.graph().dom().contains(id) && (
        before.dag.graph()[id] matches NodeView::Snapshot(snapshot) && snapshot.logical_size
            == txn.base_len),
        base_extents(before.dag.graph(), txn.base_snapshot) + 2 * txn.patches@.len() + 1
            <= 1_048_576,
        ({
            let v = before.catalog@;
            let op = txn.operation_id;
            let intent = v.intents[op];
            &&& drives(v, before.actor, op, txn.fence)
            &&& may_use(v, before.actor, txn.file, Capability::Read)
            &&& recorded_as(v, op, intent)
            &&& !v.handoffs.dom().contains(op)
            &&& !before.dag.bindings().dom().contains(op)
            &&& intent.file == txn.file
            &&& intent.expected_head == txn.expected_head
            &&& begun_on(v, op, parent)
            &&& parent matches Some(id) ==> before.dag.graph().dom().contains(id)
                && before.dag.graph()[id] is Commit
            &&& v.principals[before.actor].authz_epoch == intent.authz_epoch
            &&& v.files[txn.file].head == intent.expected_head
            &&& intent.expected_head.generation < u64::MAX
        }),
    ensures
        r is Ok || r == Err::<Version, NativeError>(
            NativeError::Catalog(CatalogError::DuplicateCommit),
        ) || exists|error: DagError| #[trigger]
            collides(after.dag.graph(), error) && r == Err::<Version, NativeError>(
                dag_failure(error),
            ),
        r matches Ok(version) ==> version.size == txn.logical_size && version.file == txn.file
            && version.generation == txn.expected_head.generation + 1 && version.parent_version_id
            == txn.expected_head.version_id,
{
    let v = before.catalog@;
    let op = txn.operation_id;
    let intent = v.intents[op];
    let graph = after.dag.graph();
    if let Some(id) = intent.expected_head.version_id {
        let list = v.versions[intent.file];
        let k = choose|k: int|
            0 <= k < list.len() && (#[trigger] list[k]).id == id && parent == Some(
                list[k].commit_id,
            ) && forall|j: int| 0 <= j < k ==> (#[trigger] list[j]).id != id;
        lemma_first_named(list, id, k);
    }
    assert(parent_of(v, before.actor, txn.file, txn.expected_head.version_id) == parent);
    law_ordered_patches_can_be_applied(
        before.dag.graph(),
        txn.base_snapshot,
        txn.base_len,
        txn.logical_size,
        txn.gathered(),
    );
    let bytes = written_bytes(
        before.dag.graph(),
        txn.base_snapshot,
        txn.logical_size,
        txn.gathered(),
    );
    if exists|commit_id: CommitId|
        #[trigger] commit_holds(graph, commit_id, txn.logical_size, bytes, parent) && (
            r,
            after.catalog@,
            after.dag.bindings(),
        ) == finish_outcome(
            v,
            graph,
            before.dag.bindings(),
            before.actor,
            op,
            txn.fence,
            commit_id,
        ) {
        let commit_id = choose|commit_id: CommitId|
            #[trigger] commit_holds(graph, commit_id, txn.logical_size, bytes, parent) && (
                r,
                after.catalog@,
                after.dag.bindings(),
            ) == finish_outcome(
                v,
                graph,
                before.dag.bindings(),
                before.actor,
                op,
                txn.fence,
                commit_id,
            );
        let commit = commit_at(graph, commit_id)->0;
        let snapshot = snapshot_at(graph, commit.snapshot)->0;
        assert(graph.dom().contains(commit_id));
        assert(node_sound(graph, commit_id));
        if has_commit(v, intent.file, commit_id) {
            lemma_duplicate(
                v,
                graph,
                before.dag.bindings(),
                before.actor,
                op,
                txn.fence,
                commit_id,
                commit,
                snapshot,
            );
        } else {
            law_finished_commits_are_published(
                v,
                graph,
                before.dag.bindings(),
                before.actor,
                op,
                txn.fence,
                commit_id,
                commit,
                snapshot,
            );
        }
    } else {
        let error = choose|error: DagError|
            #[trigger] build_failed(
                before.dag.graph(),
                graph,
                txn.base_snapshot,
                txn.base_len,
                txn.logical_size,
                txn.gathered(),
                parent,
                error,
            ) && r == Err::<Version, NativeError>(dag_failure(error)) && after.catalog@ == v
                && after.dag.bindings() == before.dag.bindings();
        if let Some(id) = parent {
            assert(graph.dom().contains(id) && graph[id] == before.dag.graph()[id]);
        }
        assert(collides(graph, error));
    }
}

proof fn lemma_duplicate(
    v: CatalogView,
    graph: Graph,
    bindings: Bindings,
    actor: PrincipalId,
    op: OperationId,
    fence: FenceToken,
    commit_id: CommitId,
    commit: CommitNode,
    snapshot: SnapshotNode,
)
    requires
        drives(v, actor, op, fence),
        recorded_as(v, op, v.intents[op]),
        !v.handoffs.dom().contains(op),
        !bindings.dom().contains(op),
        graph.dom().contains(commit_id),
        graph[commit_id] == NodeView::Commit(commit),
        NodeView::Commit(commit).digest() == commit_id@,
        graph.dom().contains(commit.snapshot),
        graph[commit.snapshot] == NodeView::Snapshot(snapshot),
        begun_on(v, op, commit.parent),
        v.principals[actor].authz_epoch == v.intents[op].authz_epoch,
        v.files[v.intents[op].file].head == v.intents[op].expected_head,
        has_commit(v, v.intents[op].file, commit_id),
    ensures
        finish_outcome(v, graph, bindings, actor, op, fence, commit_id).0 == Err::<
            Version,
            NativeError,
        >(NativeError::Catalog(CatalogError::DuplicateCommit)),
{
    let receipt = receipt_at(graph, op, commit_id)->0;
    assert(receipt.commit_id == commit_id && receipt.parent == commit.parent);
    law_receipts_are_handed_over(v, actor, op, fence, receipt);
    let taken = register_outcome(v, actor, op, fence, receipt, true).1;
    assert(drives(taken, actor, op, fence));
    let intent = v.intents[op];
    if let Some(id) = intent.expected_head.version_id {
        let list = v.versions[intent.file];
        let k = choose|k: int|
            0 <= k < list.len() && (#[trigger] list[k]).id == id && commit.parent == Some(
                list[k].commit_id,
            ) && forall|j: int| 0 <= j < k ==> (#[trigger] list[j]).id != id;
        assert(taken.versions[intent.file][k].id == id);
    }
    assert(continues_base(
        taken,
        taken.intents[op],
        taken.handoffs[op].receipt,
    ));
    law_receipts_are_attached(taken, actor, op, fence);
    let bound = bind_outcome(taken, actor, op, fence).1;
    let (of, k) = choose|of: FileId, k: int|
        v.versions.dom().contains(of) && 0 <= k < v.versions[of].len() && (
        #[trigger] v.versions[of][k]).file == intent.file && v.versions[of][k].commit_id
            == commit_id;
    assert(bound.versions[of][k].commit_id == commit_id);
    assert(has_commit(bound, intent.file, commit_id));
    law_unready_intents_are_answered(bound, actor, op, fence);
}

/// What callers see of a version is what the catalog has of it; what they see of an operation
/// is who asked for what, how it ended and, for a version, which.
pub proof fn law_operations_are_shown(record: OperationRecord)
    ensures
        operation_view(record).operation_id == record.operation_id,
        operation_view(record).kind == record.kind,
        operation_view(record).error == record.error,
        record.result matches Some(OperationResult::Version(version)) ==> {
            &&& operation_view(record).file == Some(version.file)
            &&& operation_view(record).parent_version_id == version.parent_version_id
            &&& operation_view(record).result == Some(
                OperationViewResult::Version {
                    id: version.id,
                    generation: version.generation,
                    size: version.size,
                    parent_version_id: version.parent_version_id,
                },
            )
        },
        record.result matches Some(OperationResult::File(id)) ==> operation_view(record).result
            == Some(OperationViewResult::File(id)),
        record.result == Some(OperationResult::Aborted) ==> operation_view(record).result == Some(
            OperationViewResult::Aborted,
        ),
        record.result is None ==> operation_view(record).result is None,
        record.error matches Some(error) ==> terminal_of(record) == Some(
            OperationTerminal::Aborted { error },
        ),
        record.error is None ==> (record.result matches Some(OperationResult::Version(version))
            ==> terminal_of(record) == Some(
            OperationTerminal::Committed(
                Version {
                    id: version.id,
                    file: version.file,
                    generation: version.generation,
                    parent_version_id: version.parent_version_id,
                    size: version.size,
                },
            ),
        )),
        record.error is None && record.result == Some(OperationResult::Aborted) ==> terminal_of(
            record,
        ) == Some(OperationTerminal::Aborted { error: CatalogError::Aborted }),
        record.error is None && record.result is None ==> terminal_of(record) is None,
{
}

/// An answer of the catalog is passed on, and a problem is an error.
pub proof fn law_answers_are_passed_on(value: u64, error: CatalogError)
    ensures
        reported(Ok::<u64, CatalogError>(value)) == Ok::<u64, NativeError>(value),
        reported(Err::<u64, CatalogError>(error)) == Err::<u64, NativeError>(
            NativeError::Catalog(error),
        ),
        unless(None) == Ok::<(), CatalogError>(()),
        unless(Some(error)) == Err::<(), CatalogError>(error),
{
}

/// Problems of the graph are told apart by their words.
pub proof fn law_graph_problems_have_their_words(
    id: NodeId,
    op: OperationId,
    code: u16,
    what: &'static str,
    expected: NodeKind,
    actual: NodeKind,
)
    ensures
        dag_failure(DagError::InvalidKind(code)) == NativeError::DagFailure(
            "invalid DAG node kind",
        ),
        dag_failure(DagError::InvalidPayload(what)) == NativeError::DagFailure(
            "invalid DAG payload",
        ),
        dag_failure(DagError::InvalidReference(id)) == NativeError::DagFailure(
            "invalid DAG reference",
        ),
        dag_failure(DagError::ReferenceKind { expected, actual }) == NativeError::DagFailure(
            "invalid DAG reference kind",
        ),
        dag_failure(DagError::ArithmeticOverflow) == NativeError::DagFailure(
            "DAG arithmetic overflow",
        ),
        dag_failure(DagError::MissingNode(id)) == NativeError::DagFailure("missing DAG node"),
        dag_failure(DagError::HashMismatch(id)) == NativeError::DagFailure("DAG hash mismatch"),
        dag_failure(DagError::InvalidSnapshot(what)) == NativeError::DagFailure(
            "invalid DAG snapshot",
        ),
        dag_failure(DagError::ResourceLimit(what)) == NativeError::DagFailure(
            "DAG resource limit",
        ),
        dag_failure(DagError::OperationConflict(op)) == NativeError::DagFailure(
            "DAG operation conflict",
        ),
{
}

/// A write that goes on is still the same write: of the same file, operation, base and claim.
pub proof fn law_writes_keep_their_target(txn: WriteTxn, other: WriteTxn, i: int)
    requires
        txn.same_target(other),
    ensures
        txn.file == other.file,
        txn.expected_head == other.expected_head,
        txn.operation_id == other.operation_id,
        txn.base_snapshot == other.base_snapshot,
        txn.base_len == other.base_len,
        txn.fence == other.fence,
        txn.state == other.state,
        txn.gathered().len() == txn.patches@.len(),
        0 <= i < txn.patches@.len() ==> txn.gathered()[i].start == txn.patches@[i].start
            && txn.gathered()[i].end == txn.patches@[i].end && txn.gathered()[i].bytes
            == txn.patches@[i].bytes@,
{
}

/// Contents that a write leaves alone are shared with the version before: a leaf of the new map
/// that no patch touches and that has content refers to the content of the old leaf that it
/// lies in, at the same place; and there are at most two leaves more for each patch, and one.
pub proof fn law_untouched_contents_are_shared(
    before: Graph,
    after: Graph,
    base: Option<NodeId>,
    size: u64,
    patches: Seq<PatchView>,
    root: NodeId,
    i: int,
)
    requires
        patched_map(before, after, base, size, patches, root),
        0 <= i < map_leaves(after, root).len(),
        map_leaves(after, root)[i].child_kind == NodeKind::Content,
        map_leaves(after, root)[i].logical_len > 0,
        forall|k: int|
            0 <= k < patches.len() ==> (#[trigger] patches[k]).end <= map_leaves(
                after,
                root,
            )[i].logical_start || map_leaves(after, root)[i].logical_start + map_leaves(
                after,
                root,
            )[i].logical_len <= patches[k].start,
    ensures
        map_extents(after, root) <= base_extents(before, base) + 2 * patches.len() + 1,
        map_bytes(after, root) == written_bytes(before, base, size, patches),
        exists|k: int| #![trigger base_leaves(before, base)[k]]
            {
                let entry = map_leaves(after, root)[i];
                let leaf = base_leaves(before, base)[k];
                &&& 0 <= k < base_leaves(before, base).len()
                &&& leaf.child == entry.child
                &&& leaf.logical_start <= entry.logical_start
                &&& entry.logical_start + entry.logical_len <= leaf.logical_start
                    + leaf.logical_len
                &&& entry.content_offset - leaf.content_offset == entry.logical_start
                    - leaf.logical_start
            },
{
    let entry = map_leaves(after, root)[i];
    let leaves = base_leaves(before, base);
    assert(leaf_right(after, leaves, patches, entry));
    if exists|k: int| 0 <= k < patches.len() && from_patch(after, #[trigger] patches[k], entry) {
        let k = choose|k: int|
            0 <= k < patches.len() && from_patch(after, #[trigger] patches[k], entry);
        assert(false);
    }
    let k = choose|k: int| 0 <= k < leaves.len() && from_leaf(#[trigger] leaves[k], entry);
    assert(leaves[k].child == entry.child);
}

} // verus!
