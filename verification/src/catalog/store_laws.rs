//! What holds of the store whatever is written to it.
use vstd::prelude::*;

use crate::bytes::lemma_id_view;
use crate::catalog::dag_bind::{commit_at, receipt_at};
use crate::catalog::dag_read::{lemma_snapshot_len, snapshot_at};
use crate::catalog::graph::{extends, lemma_map_stable, node_sound, sound, Graph};
use crate::catalog::ids::{CommitId, FileId};
use crate::catalog::laws::{
    law_requests_keep_soundness, listed, sound as catalog_sound, versions_distinct, Request,
};
use crate::catalog::node::content_id;
use crate::catalog::reference_store::{
    handle_bytes, lemma_version_named, located, pinned_for, read_answer, NativeError,
    SnapshotHandle, Store, Version,
};
use crate::catalog::rules::{
    bind_outcome, file_problem, pins, publish_outcome, reader_problem, register_outcome, unpinned,
    version_named, versions_of, CatalogView,
};
use crate::catalog::types::{Capability, Head};
use crate::catalog::write_txn::{commit_holds, finish_outcome, parent_of, written_bytes, WriteTxn};

verus! {

/// The handle that shows a commit of a file.
proof fn lemma_listed_is_named(v: CatalogView, file: FileId, k: int)
    requires
        versions_distinct(v),
        listed(v, file, k),
    ensures
        version_named(versions_of(v, file), v.versions[file][k].id) == Some(v.versions[file][k]),
{
    let list = v.versions[file];
    let id = list[k].id;
    lemma_version_named(list, id);
    match version_named(list, id) {
        Some(version) => {
            let j = choose|j: int| 0 <= j < list.len() && #[trigger] list[j] == version;
            assert(listed(v, file, j));
        },
        None => {
            assert(list[k].id != id);
        },
    }
}

/// A write that was committed reads back: the version that it made shows the bytes of
/// its base, cut or filled up to the size of the write, with the patches on them.
pub proof fn law_committed_write_reads_back(
    txn: WriteTxn,
    before: Store,
    after: Store,
    version: Version,
    start: u64,
    end: u64,
    room: nat,
)
    requires
        before.wf(),
        after.wf(),
        catalog_sound(before.catalog@),
        before.catalog@.intents.dom().contains(txn.operation_id),
        before.catalog@.intents[txn.operation_id].file == txn.file,
        !before.catalog@.intents[txn.operation_id].state.ended(),
        after.actor == before.actor,
        txn.committed(before, after, Ok(version)),
        file_problem(after.catalog@, after.actor, txn.file, Capability::Read) is None,
    ensures
        ({
            let graph = after.dag.graph();
            let shown = located(
                after.catalog@,
                graph,
                after.actor,
                txn.file,
                Some(version.id),
            );
            let bytes = written_bytes(
                before.dag.graph(),
                txn.base_snapshot,
                txn.logical_size,
                txn.gathered(),
            );
            &&& version.file == txn.file
            &&& version.size == txn.logical_size
            &&& shown is Ok
            &&& shown == located(after.catalog@, graph, after.actor, txn.file, None)
            &&& shown->Ok_0.len == txn.logical_size
            &&& bytes.len() == txn.logical_size
            &&& handle_bytes(graph, shown->Ok_0) == bytes
            &&& start <= end <= txn.logical_size && end - start <= usize::MAX && end - start
                <= room ==> read_answer(
                after.catalog@,
                graph,
                shown->Ok_0,
                start,
                end,
                room,
            ) == Ok::<nat, NativeError>((end - start) as nat)
        }),
{
    let v = before.catalog@;
    let op = txn.operation_id;
    let file = txn.file;
    let graph = after.dag.graph();
    let actor = before.actor;
    let parent = parent_of(v, actor, file, txn.expected_head.version_id);
    let bytes = written_bytes(
        before.dag.graph(),
        txn.base_snapshot,
        txn.logical_size,
        txn.gathered(),
    );
    let commit_id = choose|commit_id: CommitId|
        #[trigger] commit_holds(graph, commit_id, txn.logical_size, bytes, parent) && (
            Ok::<Version, NativeError>(version),
            after.catalog@,
            after.dag.bindings(),
        ) == finish_outcome(
            v,
            graph,
            before.dag.bindings(),
            actor,
            op,
            txn.fence,
            commit_id,
        );
    let receipt = receipt_at(graph, op, commit_id)->0;
    let taken = register_outcome(v, actor, op, txn.fence, receipt, true);
    law_requests_keep_soundness(
        v,
        Request::Register { actor, op, fence: txn.fence, receipt, durable: true },
    );
    let attached = bind_outcome(taken.1, actor, op, txn.fence);
    law_requests_keep_soundness(taken.1, Request::Bind { actor, op, fence: txn.fence });
    let end_state = publish_outcome(attached.1, actor, op, Some(txn.fence));
    law_requests_keep_soundness(
        attached.1,
        Request::Publish { actor, op, fence: Some(txn.fence) },
    );
    let w = after.catalog@;
    assert(w == end_state.1);
    let made = end_state.0->Ok_0;
    let k = versions_of(attached.1, file).len() as int;
    assert(w.versions[file][k] == made);
    assert(listed(w, file, k));
    lemma_listed_is_named(w, file, k);
    assert(made.commit_id == commit_id);
    let snapshot_id = commit_at(graph, commit_id)->0.snapshot;
    let snapshot = snapshot_at(graph, snapshot_id)->0;
    assert(graph.dom().contains(snapshot_id));
    assert(node_sound(graph, snapshot_id));
    lemma_snapshot_len(graph, snapshot);
    assert(versions_of(w, file)[k].id == made.id);
    assert(reader_problem(w, actor, file, Some(made.id), Some(made.commit_id)) is None);
}

/// The version that a committed write makes describes what reading it gives: it is the last of
/// the file's versions and its head, it has the size and the digest of the bytes that a reader
/// is shown, its commit is the one that the reader opens, and it follows the version that the
/// write was begun on.
pub proof fn law_committed_version_describes_its_bytes(
    txn: WriteTxn,
    before: Store,
    after: Store,
    version: Version,
)
    requires
        before.wf(),
        after.wf(),
        catalog_sound(before.catalog@),
        before.catalog@.intents.dom().contains(txn.operation_id),
        before.catalog@.intents[txn.operation_id].file == txn.file,
        !before.catalog@.intents[txn.operation_id].state.ended(),
        after.actor == before.actor,
        txn.committed(before, after, Ok(version)),
        file_problem(after.catalog@, after.actor, txn.file, Capability::Read) is None,
    ensures
        ({
            let w = after.catalog@;
            let graph = after.dag.graph();
            let shown = located(w, graph, after.actor, txn.file, Some(version.id));
            let bytes = handle_bytes(graph, shown->Ok_0);
            let intent = before.catalog@.intents[txn.operation_id];
            let stored = w.versions[txn.file].last();
            &&& w.versions[txn.file].len() == versions_of(before.catalog@, txn.file).len() + 1
            &&& stored.id == version.id
            &&& stored.file == txn.file
            &&& stored.size == bytes.len()
            &&& stored.digest == content_id(bytes)
            &&& shown->Ok_0.commit == Some(stored.commit_id)
            &&& shown->Ok_0.version == Some(stored.id)
            &&& stored.generation == intent.expected_head.generation + 1
            &&& stored.parent_version_id == intent.expected_head.version_id
            &&& w.files[txn.file].head == (Head {
                version_id: Some(version.id),
                generation: version.generation,
            })
            &&& version.size == stored.size
            &&& version.generation == stored.generation
            &&& version.parent_version_id == stored.parent_version_id
        }),
{
    law_committed_write_reads_back(txn, before, after, version, 0, 0, 0);
    let v = before.catalog@;
    let op = txn.operation_id;
    let file = txn.file;
    let graph = after.dag.graph();
    let actor = before.actor;
    let parent = parent_of(v, actor, file, txn.expected_head.version_id);
    let bytes = written_bytes(
        before.dag.graph(),
        txn.base_snapshot,
        txn.logical_size,
        txn.gathered(),
    );
    let commit_id = choose|commit_id: CommitId|
        #[trigger] commit_holds(graph, commit_id, txn.logical_size, bytes, parent) && (
            Ok::<Version, NativeError>(version),
            after.catalog@,
            after.dag.bindings(),
        ) == finish_outcome(
            v,
            graph,
            before.dag.bindings(),
            actor,
            op,
            txn.fence,
            commit_id,
        );
    let receipt = receipt_at(graph, op, commit_id)->0;
    let taken = register_outcome(v, actor, op, txn.fence, receipt, true);
    law_requests_keep_soundness(
        v,
        Request::Register { actor, op, fence: txn.fence, receipt, durable: true },
    );
    let attached = bind_outcome(taken.1, actor, op, txn.fence);
    law_requests_keep_soundness(taken.1, Request::Bind { actor, op, fence: txn.fence });
    let end_state = publish_outcome(attached.1, actor, op, Some(txn.fence));
    law_requests_keep_soundness(
        attached.1,
        Request::Publish { actor, op, fence: Some(txn.fence) },
    );
    let w = after.catalog@;
    assert(w == end_state.1);
    let made = end_state.0->Ok_0;
    let k = versions_of(attached.1, file).len() as int;
    assert(w.versions[file][k] == made);
    assert(w.versions[file].last() == made);
    assert(listed(w, file, k));
    lemma_listed_is_named(w, file, k);
    let snapshot_id = commit_at(graph, commit_id)->0.snapshot;
    let snapshot = snapshot_at(graph, snapshot_id)->0;
    assert(graph.dom().contains(snapshot_id));
    assert(node_sound(graph, snapshot_id));
    lemma_snapshot_len(graph, snapshot);
    lemma_id_view(snapshot.content_digest, content_id(bytes));
}

/// What a handle shows never changes, whatever is added to the graph.
pub proof fn law_snapshots_are_immutable(graph: Graph, larger: Graph, handle: SnapshotHandle)
    requires
        sound(graph),
        extends(graph, larger),
        handle.snapshot matches Some(id) ==> snapshot_at(graph, id) is Some,
    ensures
        handle_bytes(larger, handle) == handle_bytes(graph, handle),
{
    if let Some(id) = handle.snapshot {
        let snapshot = snapshot_at(graph, id)->0;
        assert(graph.dom().contains(id));
        assert(node_sound(graph, id));
        lemma_snapshot_len(graph, snapshot);
        lemma_map_stable(graph, larger, snapshot.range_map_root);
        assert(larger.dom().contains(id) && larger[id] == graph[id]);
    }
}

/// Opening a version and closing it again leaves the pins as they were, and between
/// the two its commit is pinned.
pub proof fn law_pins_balance(v: CatalogView, handle: SnapshotHandle)
    requires
        handle.commit is Some,
        pins(v, handle.commit->0) < u64::MAX,
        v.reader_pins.dom().contains(handle.commit->0) ==> v.reader_pins[handle.commit->0] > 0,
    ensures
        pins(pinned_for(v, handle), handle.commit->0) == pins(v, handle.commit->0) + 1,
        unpinned(pinned_for(v, handle), handle.commit->0) == v,
{
    let w = unpinned(pinned_for(v, handle), handle.commit->0);
    assert(w.reader_pins =~= v.reader_pins);
}

} // verus!
