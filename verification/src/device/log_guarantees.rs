//! What the log of the commit graph owes to its callers: what is recorded, what is refused,
//! and what is read.
use vstd::prelude::*;
use vstd::string::*;

use crate::bytes::{le_bytes, le_value, lemma_le_bytes_len, splice, zeros};
use crate::catalog::graph::id_of;
use crate::catalog::ids::{CommitId, NodeId};
use crate::catalog::node::{
    content_id, lemma_entries_len, CommitNode, DagError, NodeKind, NodeView, RangeMapEntry,
    SnapshotNode,
};
use crate::catalog::node_laws::{law_nodes_within_limits, law_payloads, proper_entry, well_made};
use crate::device::dag_store::{
    append_problem, appended, appended_contents, keeps_nodes, lemma_append_laws, logged,
    room_problem, LogRequest,
};
use crate::device::log::{
    binding_payload, empty_log, lemma_magic_len, lookup, record_bytes, FileDagStoreError, LogView,
    RecordKind,
};
use crate::device::log_laws::filed;
use crate::device::snapshots::{
    append_all, append_refused, chunk_count, chunk_end, chunk_entries, chunk_entry, chunk_node,
    holds_snapshot, law_written_snapshot_reads_back, whole_commit, whole_map, whole_nodes,
    whole_snapshot,
};
use crate::device::walk::{
    checked, digest_problem, read_result, root_of, snapshot_of, source, walk_windows, Source,
    Walked,
};
use crate::hashing::blake3_digest;

verus! {

/// A record of at most sixteen mebibytes is taken where it fits with its eighty-six bytes of
/// header and footer; a larger one, and one that does not fit, are refused with the numbers.
pub proof fn law_records_with_room_are_taken(size: nat, log: LogView, len: nat)
    requires
        size <= 0xffff_ffff_ffff_ffff,
        log.next <= size,
    ensures
        len <= 16_777_216 && log.next + 86 + len <= size ==> room_problem(size, log, len) is None,
        len > 16_777_216 ==> room_problem(size, log, len) == Some(
            FileDagStoreError::RecordTooLarge(len as usize),
        ),
        len <= 16_777_216 && log.next + 86 + len > size ==> room_problem(size, log, len) == Some(
            FileDagStoreError::CapacityExhausted {
                needed: (86 + len) as u64,
                remaining: (size - log.next) as u64,
            },
        ),
{
}

/// How a record is written: its kind, its length, the digest of kind, length and payload, the
/// payload, the mark of its end, its length and the digest again.
pub proof fn law_records_are_framed(code: u16, payload: Seq<u8>)
    ensures
        ({
            let sum = blake3_digest(
                le_bytes(code as nat, 2) + le_bytes(payload.len(), 4) + payload,
            )@;
            record_bytes(code, payload) == le_bytes(code as nat, 2) + le_bytes(payload.len(), 4)
                + sum + payload + "CAIRNEND".spec_bytes() + (le_bytes(payload.len(), 8) + sum)
        }),
        RecordKind::OperationBinding.number() == 256,
        RecordKind::OperationTombstone.number() == 257,
        RecordKind::Node(NodeKind::Content).number() == 1,
        RecordKind::Node(NodeKind::ZeroRun).number() == 2,
        RecordKind::Node(NodeKind::RangeMap).number() == 3,
        RecordKind::Node(NodeKind::Snapshot).number() == 4,
        RecordKind::Node(NodeKind::Commit).number() == 5,
{
}

/// A node that is not there is appended where its record fits: it is indexed at the end of the
/// log, which moves on behind the record, and nothing else changes.
pub proof fn law_new_nodes_are_appended(contents: Seq<u8>, log: LogView, node: NodeView)
    requires
        contents.len() <= 0xffff_ffff_ffff_ffff,
        node.problem() is None,
        !log.nodes.dom().contains(id_of(node)),
        node.payload().len() <= 16_777_216,
        log.next + 86 + node.payload().len() <= contents.len(),
    ensures
        ({
            let (refused, after, grown) = logged(contents, log, LogRequest::Append { node });
            &&& refused is None
            &&& after.len() == contents.len()
            &&& after.take(log.next as int) == contents.take(log.next as int)
            &&& after.subrange(
                log.next as int,
                log.next + 86 + node.payload().len(),
            ) == record_bytes(node.kind().number(), node.payload())
            &&& grown.nodes == log.nodes.insert(id_of(node), log.next)
            &&& grown.next == log.next + 86 + node.payload().len()
            &&& grown.bindings == log.bindings
            &&& grown.tombstones == log.tombstones
            &&& filed(contents, log) ==> lookup(after, grown.nodes, id_of(node)) == Ok::<
                NodeView,
                FileDagStoreError,
            >(node)
        }),
{
    let code = node.kind().number();
    let payload = node.payload();
    let bytes = record_bytes(code, payload);
    lemma_record_len(code, payload);
    lemma_append_laws(contents, log, node, id_of(node));
    let after = appended_contents(contents, log, node);
    assert(after.subrange(log.next as int, log.next + 86 + payload.len()) =~= bytes);
    assert(after.take(log.next as int) =~= contents.take(log.next as int));
}

proof fn lemma_record_len(code: u16, payload: Seq<u8>)
    ensures
        record_bytes(code, payload).len() == 86 + payload.len(),
{
    lemma_le_bytes_len(code as nat, 2);
    lemma_le_bytes_len(payload.len(), 4);
    lemma_le_bytes_len(payload.len(), 8);
    lemma_magic_len();
}

/// A node that is there is not appended again, and one that breaks its limits, or is too large
/// or does not fit, is refused with nothing changed.
pub proof fn law_other_nodes_are_not_appended(contents: Seq<u8>, log: LogView, node: NodeView)
    ensures
        node.problem() is None && log.nodes.dom().contains(id_of(node)) && lookup(
            contents,
            log.nodes,
            id_of(node),
        ) == Ok::<NodeView, FileDagStoreError>(node) ==> logged(
            contents,
            log,
            LogRequest::Append { node },
        ) == (None::<FileDagStoreError>, contents, log),
        node.problem() matches Some(error) ==> logged(contents, log, LogRequest::Append { node })
            == (Some(FileDagStoreError::Dag(error)), contents, log),
        node.problem() is None && !log.nodes.dom().contains(id_of(node)) && node.payload().len()
            > 16_777_216 ==> logged(contents, log, LogRequest::Append { node }) == (
            Some(FileDagStoreError::RecordTooLarge(node.payload().len() as usize)),
            contents,
            log,
        ),
        node.problem() is None && !log.nodes.dom().contains(id_of(node)) && node.payload().len()
            <= 16_777_216 && log.next + 86 + node.payload().len() > contents.len() ==> {
            let (refused, after, same) = logged(contents, log, LogRequest::Append { node });
            refused is Some && refused->0 is CapacityExhausted && after == contents && same == log
        },
{
}

/// Whether the commit is there, and reads as a commit that has its identifier.
pub open spec fn readable_commit(contents: Seq<u8>, log: LogView, commit: CommitId) -> bool {
    &&& log.nodes.dom().contains(commit)
    &&& lookup(contents, log.nodes, commit) matches Ok(node) && node is Commit && id_of(node)
        == commit
}

/// An operation is bound to a commit that is there, once; binding it again changes nothing, and
/// binding it to another, or after it has ended, is a conflict.
pub proof fn law_operations_are_bound(
    contents: Seq<u8>,
    log: LogView,
    operation: u64,
    commit: CommitId,
)
    requires
        contents.len() <= 0xffff_ffff_ffff_ffff,
        readable_commit(contents, log, commit),
    ensures
        ({
            let (refused, after, grown) = logged(
                contents,
                log,
                LogRequest::Bind { operation, commit },
            );
            &&& !log.tombstones.dom().contains(operation) && !log.bindings.dom().contains(operation)
                && log.next + 126 <= contents.len() ==> {
                &&& refused is None
                &&& grown.bindings == log.bindings.insert(operation, commit)
                &&& grown.tombstones == log.tombstones
                &&& grown.nodes == log.nodes
                &&& grown.next == log.next + 126
                &&& after == splice(
                    contents,
                    log.next as int,
                    record_bytes(256, le_bytes(operation as nat, 8) + commit@),
                )
            }
            &&& !log.tombstones.dom().contains(operation) && log.bindings.dom().contains(operation)
                && log.bindings[operation] == commit ==> refused is None && after == contents
                && grown == log
            &&& log.tombstones.dom().contains(operation) || (log.bindings.dom().contains(operation)
                && log.bindings[operation] != commit) ==> refused == Some(
                FileDagStoreError::OperationConflict(operation),
            ) && after == contents && grown == log
            &&& !log.tombstones.dom().contains(operation) && !log.bindings.dom().contains(operation)
                && log.next + 126 > contents.len() ==> refused is Some && refused->0
                is CapacityExhausted && after == contents && grown == log
        }),
{
    lemma_le_bytes_len(operation as nat, 8);
    assert(binding_payload(operation, commit).len() == 40);
}

/// An operation that is bound to the commit ends; ending it again changes nothing, and ending
/// one that is not bound, or is bound to another commit, is a conflict.
pub proof fn law_operations_end(
    contents: Seq<u8>,
    log: LogView,
    operation: u64,
    commit: CommitId,
)
    requires
        contents.len() <= 0xffff_ffff_ffff_ffff,
        readable_commit(contents, log, commit),
    ensures
        ({
            let (refused, after, grown) = logged(
                contents,
                log,
                LogRequest::Tombstone { operation, commit },
            );
            &&& !log.tombstones.dom().contains(operation) && log.bindings.dom().contains(operation)
                && log.bindings[operation] == commit && log.next + 126 <= contents.len() ==> {
                &&& refused is None
                &&& grown.bindings == log.bindings.remove(operation)
                &&& grown.tombstones == log.tombstones.insert(operation, commit)
                &&& grown.nodes == log.nodes
                &&& grown.next == log.next + 126
                &&& after == splice(
                    contents,
                    log.next as int,
                    record_bytes(257, le_bytes(operation as nat, 8) + commit@),
                )
            }
            &&& log.tombstones.dom().contains(operation) && log.tombstones[operation] == commit
                ==> refused is None && after == contents && grown == log
            &&& log.tombstones.dom().contains(operation) && log.tombstones[operation] != commit
                ==> refused == Some(FileDagStoreError::OperationConflict(operation)) && after
                == contents && grown == log
            &&& !log.tombstones.dom().contains(operation) && (!log.bindings.dom().contains(
                operation,
            ) || log.bindings[operation] != commit) ==> refused == Some(
                FileDagStoreError::OperationConflict(operation),
            ) && after == contents && grown == log
        }),
{
    lemma_le_bytes_len(operation as nat, 8);
    assert(binding_payload(operation, commit).len() == 40);
}

/// Nothing is bound to, or ended with, a commit that is not there or a node that is none.
pub proof fn law_only_commits_are_bound(
    contents: Seq<u8>,
    log: LogView,
    operation: u64,
    commit: CommitId,
)
    ensures
        !log.nodes.dom().contains(commit) ==> logged(
            contents,
            log,
            LogRequest::Bind { operation, commit },
        ) == (
            Some(FileDagStoreError::Dag(DagError::MissingNode(commit))),
            contents,
            log,
        ) && logged(contents, log, LogRequest::Tombstone { operation, commit }) == (
            Some(FileDagStoreError::Dag(DagError::MissingNode(commit))),
            contents,
            log,
        ),
        log.nodes.dom().contains(commit) && (lookup(contents, log.nodes, commit) matches Ok(node)
            && !(node is Commit)) ==> logged(contents, log, LogRequest::Bind { operation, commit })
            == (
            Some(FileDagStoreError::Dag(DagError::InvalidReference(commit))),
            contents,
            log,
        ),
{
}

/// How many bytes the records of the nodes take.
pub open spec fn room_for(nodes: Seq<NodeView>) -> int
    decreases nodes.len(),
{
    if nodes.len() == 0 {
        0
    } else {
        room_for(nodes.drop_last()) + 86 + nodes.last().payload().len()
    }
}

/// Whether the log and the nodes agree: an identifier stands for one node.
pub open spec fn agreed(contents: Seq<u8>, log: LogView, nodes: Seq<NodeView>) -> bool {
    &&& forall|i: int|
        0 <= i < nodes.len() && log.nodes.dom().contains(id_of(#[trigger] nodes[i])) ==> lookup(
            contents,
            log.nodes,
            id_of(nodes[i]),
        ) == Ok::<NodeView, FileDagStoreError>(nodes[i])
    &&& forall|i: int, j: int|
        #![trigger nodes[i], nodes[j]]
        0 <= i < nodes.len() && 0 <= j < nodes.len() && id_of(nodes[i]) == id_of(nodes[j])
            ==> nodes[i] == nodes[j]
}

proof fn lemma_all_appended(contents: Seq<u8>, log: LogView, nodes: Seq<NodeView>)
    requires
        contents.len() <= u64::MAX,
        filed(contents, log),
        forall|i: int|
            0 <= i < nodes.len() ==> (#[trigger] nodes[i]).problem() is None
                && nodes[i].payload().len() <= 16_777_216,
        agreed(contents, log, nodes),
        log.next + room_for(nodes) <= contents.len(),
    ensures
        ({
            let r = append_all(contents, log, nodes);
            &&& r is Ok
            &&& ({
                let (after, grown) = r->Ok_0;
                &&& after.len() == contents.len()
                &&& filed(after, grown)
                &&& grown.next <= log.next + room_for(nodes)
                &&& keeps_nodes(contents, log, after, grown)
                &&& forall|id: NodeId| #[trigger]
                    grown.nodes.dom().contains(id) ==> log.nodes.dom().contains(id) || exists|
                        i: int,
                    |
                        0 <= i < nodes.len() && id == id_of(#[trigger] nodes[i])
                &&& forall|i: int|
                    0 <= i < nodes.len() ==> grown.nodes.dom().contains(id_of(#[trigger] nodes[i]))
                        && lookup(after, grown.nodes, id_of(nodes[i])) == Ok::<
                        NodeView,
                        FileDagStoreError,
                    >(nodes[i])
                &&& grown.bindings == log.bindings
                &&& grown.tombstones == log.tombstones
            })
        }),
    decreases nodes.len(),
{
    if nodes.len() > 0 {
        let rest = nodes.drop_last();
        let n = rest.len() as int;
        let node = nodes.last();
        assert(nodes[n] == node);
        assert forall|i: int| 0 <= i < rest.len() implies #[trigger] rest[i] == nodes[i] by {
        }
        assert(agreed(contents, log, rest));
        lemma_all_appended(contents, log, rest);
        let (before, index) = append_all(contents, log, rest)->Ok_0;
        let id = id_of(node);
        lemma_record_len(node.kind().number(), node.payload());
        if index.nodes.dom().contains(id) {
            if log.nodes.dom().contains(id) {
                assert(lookup(before, index.nodes, id) == lookup(contents, log.nodes, id));
            } else {
                let i = choose|i: int| 0 <= i < rest.len() && id == id_of(#[trigger] rest[i]);
                assert(rest[i] == nodes[i]);
                assert(nodes[i] == nodes[n]);
            }
            assert(append_problem(before, index, node) is None);
        } else {
            law_records_with_room_are_taken(before.len(), index, node.payload().len());
            lemma_append_laws(before, index, node, id);
        }
        let (after, grown) = append_all(contents, log, nodes)->Ok_0;
        assert forall|other: NodeId| #[trigger] log.nodes.dom().contains(other) implies
            grown.nodes.dom().contains(other) && lookup(after, grown.nodes, other) == lookup(
            contents,
            log.nodes,
            other,
        ) by {
            assert(index.nodes.dom().contains(other));
        }
        assert forall|other: NodeId| #[trigger] grown.nodes.dom().contains(other) implies
            log.nodes.dom().contains(other) || exists|i: int|
            0 <= i < nodes.len() && other == id_of(#[trigger] nodes[i]) by {
            if index.nodes.dom().contains(other) && !log.nodes.dom().contains(other) {
                let i = choose|i: int| 0 <= i < rest.len() && other == id_of(#[trigger] rest[i]);
                assert(other == id_of(nodes[i]));
            } else if !index.nodes.dom().contains(other) {
                assert(other == id_of(nodes[n]));
            }
        }
        assert forall|i: int| 0 <= i < nodes.len() implies grown.nodes.dom().contains(
            id_of(#[trigger] nodes[i]),
        ) && lookup(after, grown.nodes, id_of(nodes[i])) == Ok::<NodeView, FileDagStoreError>(
            nodes[i],
        ) by {
            if i < n {
                assert(rest[i] == nodes[i]);
                assert(index.nodes.dom().contains(id_of(rest[i])));
            }
        }
    }
}

/// Each piece of contents of up to two gibibytes keeps its limits, and so do the map over them,
/// the snapshot and the commit.
proof fn lemma_whole_nodes_within_limits(bytes: Seq<u8>, parent: Option<CommitId>, i: int)
    requires
        bytes.len() <= 2_147_483_648,
        0 <= i < whole_nodes(bytes, parent).len(),
    ensures
        whole_nodes(bytes, parent)[i].problem() is None,
        whole_nodes(bytes, parent)[i].payload().len() <= 16_777_216,
{
    let count = chunk_count(bytes.len());
    let nodes = whole_nodes(bytes, parent);
    let children = chunk_entries(bytes, count);
    assert(count <= 256);
    let snapshot = whole_snapshot(bytes);
    let commit = whole_commit(bytes, parent);
    assert forall|k: int| 0 <= k < children.len() implies proper_entry(0, #[trigger] children[k]) by {
        assert(children[k] == chunk_entry(bytes, k));
    }
    assert forall|a: int, b: int|
        #![trigger children[a], children[b]]
        0 <= a && b == a + 1 && b < children.len() implies children[b].logical_start
        == children[a].logical_start + children[a].logical_len by {
        assert(children[a] == chunk_entry(bytes, a) && children[b] == chunk_entry(bytes, b));
    }
    assert(well_made(0, children));
    let piece = if i < count {
        bytes.subrange(i * 8_388_608, chunk_end(bytes.len(), i))
    } else {
        Seq::empty()
    };
    law_nodes_within_limits(piece, 0, 0, children, snapshot, commit);
    law_payloads(piece, 0, snapshot, commit);
    lemma_le_bytes_len(piece.len(), 8);
    lemma_le_bytes_len(snapshot.logical_size as nat, 8);
    lemma_le_bytes_len(children.len(), 4);
    lemma_entries_len(children);
    if i < count {
        assert(nodes[i] == NodeView::Content(piece));
    } else if i == count {
        assert(nodes[i] == whole_map(bytes));
    } else if i == count + 1 {
        assert(nodes[i] == NodeView::Snapshot(snapshot));
    } else {
        assert(nodes[i] == NodeView::Commit(commit));
    }
}

/// Contents of up to two gibibytes are recorded where there is room for the records of their
/// pieces, of the map over them, of the snapshot and of the commit; every range of at most
/// sixty-four mebibytes of them then reads back.
pub proof fn law_snapshots_with_room_are_recorded(
    contents: Seq<u8>,
    log: LogView,
    bytes: Seq<u8>,
    parent: Option<CommitId>,
    validated: Set<NodeId>,
    start: u64,
    end: u64,
)
    requires
        contents.len() <= u64::MAX,
        filed(contents, log),
        bytes.len() <= 2_147_483_648,
        agreed(contents, log, whole_nodes(bytes, parent)),
        log.next + room_for(whole_nodes(bytes, parent)) <= contents.len(),
        start <= end <= bytes.len(),
        end - start <= 67_108_864,
    ensures
        ({
            let r = append_all(contents, log, whole_nodes(bytes, parent));
            &&& r is Ok
            &&& ({
                let (after, grown) = r->Ok_0;
                let commit = id_of(NodeView::Commit(whole_commit(bytes, parent)));
                &&& holds_snapshot(source(after, grown.nodes), bytes, parent)
                &&& read_result(source(after, grown.nodes), validated, commit, start, end) == Ok::<
                    Seq<u8>,
                    FileDagStoreError,
                >(bytes.subrange(start as int, end as int))
                &&& grown.next <= log.next + room_for(whole_nodes(bytes, parent))
                &&& grown.bindings == log.bindings
                &&& grown.tombstones == log.tombstones
            })
        }),
{
    let nodes = whole_nodes(bytes, parent);
    assert forall|i: int| 0 <= i < nodes.len() implies (#[trigger] nodes[i]).problem() is None
        && nodes[i].payload().len() <= 16_777_216 by {
        lemma_whole_nodes_within_limits(bytes, parent, i);
    }
    lemma_all_appended(contents, log, nodes);
    let (after, grown) = append_all(contents, log, nodes)->Ok_0;
    let look = source(after, grown.nodes);
    assert forall|i: int| 0 <= i < nodes.len() implies look(id_of(#[trigger] nodes[i])) == Ok::<
        NodeView,
        FileDagStoreError,
    >(nodes[i]) by {
        assert(lookup(after, grown.nodes, id_of(nodes[i])) == Ok::<NodeView, FileDagStoreError>(
            nodes[i],
        ));
    }
    law_written_snapshot_reads_back(look, validated, bytes, parent, start, end);
}

/// What is recorded of contents: pieces of eight mebibytes and a last one, one behind the other,
/// a map over all of them, a snapshot with their length and digest, and a commit of it with
/// the parent that was given.
pub proof fn law_snapshots_describe_their_bytes(bytes: Seq<u8>, parent: Option<CommitId>, i: int)
    requires
        bytes.len() <= 2_147_483_648,
    ensures
        whole_snapshot(bytes).logical_size == bytes.len(),
        whole_snapshot(bytes).content_digest == content_id(bytes),
        whole_snapshot(bytes).range_map_root == id_of(whole_map(bytes)),
        whole_commit(bytes, parent).snapshot == id_of(NodeView::Snapshot(whole_snapshot(bytes))),
        whole_commit(bytes, parent).parent == parent,
        chunk_count(bytes.len()) * 8_388_608 >= bytes.len(),
        bytes.len() > 0 ==> (chunk_count(bytes.len()) - 1) * 8_388_608 < bytes.len(),
        0 <= i < chunk_count(bytes.len()) ==> chunk_node(bytes, i) == NodeView::Content(
            bytes.subrange(
                i * 8_388_608,
                if (i + 1) * 8_388_608 <= bytes.len() {
                    (i + 1) * 8_388_608
                } else {
                    bytes.len() as int
                },
            ),
        ),
{
}

/// Why a range is not read: it runs backwards, the commit is not there or is none, it ends
/// beyond the snapshot, or it is longer than sixty-four mebibytes.
pub proof fn law_other_ranges_are_not_read(
    look: Source,
    validated: Set<NodeId>,
    commit: CommitId,
    snapshot_id: NodeId,
    snapshot: SnapshotNode,
    start: u64,
    end: u64,
)
    ensures
        start > end ==> read_result(look, validated, commit, start, end) == Err::<
            Seq<u8>,
            FileDagStoreError,
        >(FileDagStoreError::RangeOutOfBounds { start, end, size: 0 }),
        start <= end && look(commit) is Err ==> read_result(look, validated, commit, start, end)
            == Err::<Seq<u8>, FileDagStoreError>(look(commit)->Err_0),
        start <= end && (look(commit) matches Ok(node) && !(node is Commit)) ==> read_result(
            look,
            validated,
            commit,
            start,
            end,
        ) == Err::<Seq<u8>, FileDagStoreError>(FileDagStoreError::InvalidReference(commit)),
        start <= end && snapshot_of(look, commit) == Ok::<(NodeId, SnapshotNode), FileDagStoreError>(
            (snapshot_id, snapshot),
        ) && end > snapshot.logical_size ==> read_result(look, validated, commit, start, end)
            == Err::<Seq<u8>, FileDagStoreError>(
            FileDagStoreError::RangeOutOfBounds { start, end, size: snapshot.logical_size },
        ),
        start <= end <= snapshot.logical_size && snapshot_of(look, commit) == Ok::<
            (NodeId, SnapshotNode),
            FileDagStoreError,
        >((snapshot_id, snapshot)) && end - start > 67_108_864 ==> read_result(
            look,
            validated,
            commit,
            start,
            end,
        ) == Err::<Seq<u8>, FileDagStoreError>(
            FileDagStoreError::ResourceLimit("snapshot range length"),
        ),
{
}

/// The snapshot of a commit is the one that the commit names.
pub proof fn law_commits_lead_to_their_snapshot(
    look: Source,
    commit_id: CommitId,
    commit: CommitNode,
    snapshot: SnapshotNode,
)
    requires
        look(commit_id) == Ok::<NodeView, FileDagStoreError>(NodeView::Commit(commit)),
        look(commit.snapshot) == Ok::<NodeView, FileDagStoreError>(NodeView::Snapshot(snapshot)),
    ensures
        snapshot_of(look, commit_id) == Ok::<(NodeId, SnapshotNode), FileDagStoreError>(
            (commit.snapshot, snapshot),
        ),
{
}

/// A log with nothing in it starts at the front of the device.
pub proof fn law_empty_logs(id: NodeId, operation: u64)
    ensures
        empty_log().next == 0,
        !empty_log().nodes.dom().contains(id),
        !empty_log().bindings.dom().contains(operation),
        !empty_log().tombstones.dom().contains(operation),
{
}

/// Contents that there is room for are not refused on a device that can be relied on.
pub proof fn law_snapshots_with_room_are_not_refused(
    contents: Seq<u8>,
    log: LogView,
    bytes: Seq<u8>,
    parent: Option<CommitId>,
    error: FileDagStoreError,
)
    requires
        contents.len() <= u64::MAX,
        filed(contents, log),
        bytes.len() <= 2_147_483_648,
        agreed(contents, log, whole_nodes(bytes, parent)),
        log.next + room_for(whole_nodes(bytes, parent)) <= contents.len(),
    ensures
        !append_refused(true, contents, log, whole_nodes(bytes, parent), error),
{
    law_snapshots_with_room_are_recorded(contents, log, bytes, parent, Set::empty(), 0, 0);
}

/// A snapshot is remembered as checked only where its digest was found right, and one that was
/// answered for is remembered.
pub proof fn law_only_checked_snapshots_are_remembered(
    look: Source,
    commit: CommitId,
    before: Set<NodeId>,
    after: Set<NodeId>,
    done: bool,
    id: NodeId,
)
    requires
        checked(look, commit, before, after, done),
    ensures
        before.contains(id) ==> after.contains(id),
        after.contains(id) && !before.contains(id) ==> snapshot_of(look, commit) is Ok && (
        snapshot_of(look, commit)->Ok_0).0 == id && digest_problem(
            look,
            (snapshot_of(look, commit)->Ok_0).1,
        ) is None,
        done ==> snapshot_of(look, commit) is Ok && after.contains(
            (snapshot_of(look, commit)->Ok_0).0,
        ),
{
}

/// A snapshot whose bytes have another digest is found out.
pub proof fn law_wrong_digests_are_found_out(
    look: Source,
    snapshot: SnapshotNode,
    level: u8,
    children: Seq<RangeMapEntry>,
    walked: Walked,
)
    requires
        root_of(look, snapshot) == Ok::<(u8, Seq<RangeMapEntry>), FileDagStoreError>(
            (level, children),
        ),
        walk_windows(look, level, children, snapshot.logical_size, 0, 0, 0) == Ok::<
            Walked,
            FileDagStoreError,
        >(walked),
    ensures
        content_id(walked.bytes)@ == snapshot.content_digest@ ==> digest_problem(look, snapshot)
            is None,
        content_id(walked.bytes)@ != snapshot.content_digest@ ==> digest_problem(look, snapshot)
            == Some(FileDagStoreError::InvalidSnapshot("content digest mismatch")),
{
}

/// Damage is found out by a scan: a record of no length or too large, a footer or a header that
/// does not have the digest of what stands between them, and a kind that is none.
pub proof fn law_damage_is_found_out(contents: Seq<u8>, log: LogView)
    requires
        log.next + 38 <= contents.len() <= 0xffff_ffff_ffff_ffff,
        contents.subrange(log.next as int, log.next + 38) != zeros(38),
    ensures
        ({
            let at = log.next as int;
            let len = le_value(contents.subrange(at + 2, at + 6));
            let code = le_value(contents.subrange(at, at + 2)) as u16;
            let payload = contents.subrange(at + 38, at + 38 + len);
            let sum = blake3_digest(le_bytes(code as nat, 2) + le_bytes(len, 4) + payload)@;
            let fits = 0 < len <= 16_777_216 && at + 86 + len <= contents.len();
            let marked = fits && contents.subrange(at + 38 + len, at + 46 + len)
                == "CAIRNEND".spec_bytes();
            &&& len == 0 || len > 16_777_216 ==> log.scan_step(contents) is Err
            &&& 0 < len <= 16_777_216 && at + 86 + len > contents.len() ==> log.scan_step(contents)
                == Ok::<Option<LogView>, FileDagStoreError>(None)
            &&& fits && !marked ==> log.scan_step(contents) == Ok::<
                Option<LogView>,
                FileDagStoreError,
            >(None)
            &&& marked && contents.subrange(at + 46 + len, at + 86 + len) != le_bytes(len, 8) + sum
                ==> log.scan_step(contents) is Err
            &&& marked && contents.subrange(at + 6, at + 38) != sum ==> log.scan_step(contents)
                is Err
            &&& marked && code != 256 && code != 257 && !(1 <= code <= 5) ==> log.scan_step(contents)
                is Err
        }),
{
    let at = log.next as int;
    let len = le_value(contents.subrange(at + 2, at + 6));
    if at + 86 + len <= contents.len() {
        assert(contents.subrange(at + 38, at + 38 + len).len() == len);
    }
}

/// A node that is read stands where the index says, behind a header with the digest of what
/// was written, and its identifier is indexed at that place.
pub proof fn law_read_nodes_are_right(
    contents: Seq<u8>,
    index: Map<NodeId, u64>,
    id: NodeId,
    node: NodeView,
)
    requires
        lookup(contents, index, id) == Ok::<NodeView, FileDagStoreError>(node),
    ensures
        ({
            let at = index[id] as int;
            let len = le_value(contents.subrange(at + 2, at + 6));
            let code = le_value(contents.subrange(at, at + 2)) as u16;
            let payload = contents.subrange(at + 38, at + 38 + len);
            &&& index.dom().contains(id)
            &&& index.dom().contains(id_of(node))
            &&& index[id_of(node)] == index[id]
            &&& at + 86 + len <= contents.len()
            &&& contents.subrange(at + 6, at + 38) == blake3_digest(
                le_bytes(code as nat, 2) + le_bytes(payload.len(), 4) + payload,
            )@
        }),
{
}

} // verus!
