//! What the graph of contents owes to those who put nodes into it and read them back.
use vstd::prelude::*;
use vstd::string::*;

use crate::bytes::{
    le_bytes, le_value, lemma_le_bytes_len, lemma_le_roundtrip, lemma_pow256_values, zeros,
};
use crate::catalog::dag::{
    digest_result, insert_problem, lemma_span_order, DagOperationBindingState, OperationBinding,
};
use crate::catalog::dag_bind::{bind_problem, bound, receipt_at, with_tombstone};
use crate::catalog::dag_reach::{edge, is_path, reaches};
use crate::catalog::graph::{
    child_problem, entry_content, entry_ok, id_of, lemma_run_front, lemma_run_len, map_bytes,
    map_extents, node_sound, ref_problem, reference_problem, refs_of, run_bytes, run_ok,
    snapshot_problem, sound, Graph,
};
use crate::catalog::ids::{CommitId, CommitReceipt, NodeId, OperationId};
use crate::catalog::node::{
    child_allowed, content_id, decode_problem, entries_bytes, entry_bytes, entry_problem, head_of,
    heads_of, kind_numbered, lemma_well_shaped, span_of, CommitNode, DagError, NodeKind, NodeView,
    RangeMapEntry, SnapshotNode,
};
use crate::first::{lemma_first_at, lemma_first_clear, lemma_first_none};
use crate::hashing::blake3_digest;

verus! {

/// Whether an entry may stand in a map of the level: part of a content or a run of zeros in a
/// lowest map, a whole map in another.
pub open spec fn proper_entry(level: u8, entry: RangeMapEntry) -> bool {
    &&& entry.logical_len > 0
    &&& entry.logical_start + entry.logical_len < 0x1_0000_0000_0000_0000
    &&& if level == 0 {
        entry.child_kind == NodeKind::Content || (entry.child_kind == NodeKind::ZeroRun
            && entry.content_offset == 0)
    } else {
        entry.child_kind == NodeKind::RangeMap && entry.content_offset == 0
    }
}

/// Whether a map is well made: of level eight at most, with two hundred and fifty-six entries
/// at most, each proper and behind the one before it. Only a lowest map may be empty.
pub open spec fn well_made(level: u8, children: Seq<RangeMapEntry>) -> bool {
    &&& level <= 8
    &&& children.len() <= 256
    &&& children.len() == 0 ==> level == 0
    &&& forall|i: int| 0 <= i < children.len() ==> proper_entry(level, #[trigger] children[i])
    &&& forall|i: int, j: int|
        #![trigger children[i], children[j]]
        0 <= i && j == i + 1 && j < children.len() ==> children[j].logical_start
            == children[i].logical_start + children[i].logical_len
}

/// What a node may be: at most eight mebibytes of content, a run of at most four gibibytes of
/// zeros, a well-made map, a snapshot of at most four gibibytes, and any commit.
pub proof fn law_nodes_within_limits(
    bytes: Seq<u8>,
    len: u64,
    level: u8,
    children: Seq<RangeMapEntry>,
    snapshot: SnapshotNode,
    commit: CommitNode,
)
    ensures
        NodeView::Content(bytes).problem() == if bytes.len() <= 8_388_608 {
            None
        } else {
            Some(DagError::ResourceLimit("Content node payload"))
        },
        NodeView::ZeroRun(len).problem() == if len <= 4_294_967_296 {
            None
        } else {
            Some(DagError::ResourceLimit("ZeroRun length"))
        },
        NodeView::Snapshot(snapshot).problem() == if snapshot.logical_size <= 4_294_967_296 {
            None
        } else {
            Some(DagError::ResourceLimit("Snapshot logical size"))
        },
        NodeView::Commit(commit).problem() is None,
        (NodeView::RangeMap { level, children }).problem() is None <==> well_made(level, children),
        level > 8 || children.len() > 256 ==> (NodeView::RangeMap { level, children }).problem()
            == Some(DagError::InvalidPayload("RangeMap bounds")),
{
    let heads = heads_of(children);
    let find = |i: int| entry_problem(level, heads, i);
    if well_made(level, children) {
        assert forall|i: int| 0 <= i < heads.len() implies #[trigger] find(i) is None by {
            assert(proper_entry(level, children[i]));
            assert(heads[i] == head_of(children[i]));
            if i > 0 {
                assert(heads[i - 1] == head_of(children[i - 1]));
                assert(children[i].logical_start == children[i - 1].logical_start + children[i
                    - 1].logical_len);
            }
        }
        lemma_first_clear(find, 0, heads.len() as int);
    }
    if (NodeView::RangeMap { level, children }).problem() is None {
        lemma_well_shaped(level, children);
        assert forall|i: int| 0 <= i < children.len() implies proper_entry(
            level,
            #[trigger] children[i],
        ) by {
            assert(child_allowed(
                level,
                head_of(children[i]),
            ));
        }
    }
}

/// Kinds have the numbers one to five, and no other number is a kind.
pub proof fn law_kinds_are_numbered(value: nat)
    ensures
        NodeKind::Content.number() == 1,
        NodeKind::ZeroRun.number() == 2,
        NodeKind::RangeMap.number() == 3,
        NodeKind::Snapshot.number() == 4,
        NodeKind::Commit.number() == 5,
        kind_numbered(value) is Some <==> 1 <= value <= 5,
        kind_numbered(value) matches Some(kind) ==> kind.number() == value,
{
}

/// How nodes are written: contents behind their length, a run as its length, a snapshot as
/// size, map and digest, a commit as its snapshot and, where it has one, its parent.
pub proof fn law_payloads(bytes: Seq<u8>, len: u64, snapshot: SnapshotNode, commit: CommitNode)
    ensures
        NodeView::Content(bytes).payload() == le_bytes(bytes.len(), 8) + bytes,
        NodeView::ZeroRun(len).payload() == le_bytes(len as nat, 8),
        NodeView::Snapshot(snapshot).payload() == le_bytes(snapshot.logical_size as nat, 8)
            + snapshot.range_map_root@ + snapshot.content_digest@,
        commit.parent is None ==> NodeView::Commit(commit).payload() == commit.snapshot@ + seq![
            0u8,
        ],
        commit.parent matches Some(parent) ==> NodeView::Commit(commit).payload()
            == commit.snapshot@ + seq![1u8] + parent@,
{
    if let Some(parent) = commit.parent {
        assert(commit.snapshot@ + (seq![1u8] + parent@) =~= commit.snapshot@ + seq![1u8] + parent@);
    }
}

/// How a map is written: its level, whether it is a lowest one, how many entries it has, and
/// the entries, each with its place, its offset, the kind of its child and the child.
pub proof fn law_map_payload(level: u8, children: Seq<RangeMapEntry>, entry: RangeMapEntry)
    ensures
        (NodeView::RangeMap { level, children: Seq::empty() }).payload() == seq![
            level,
            if level == 0 {
                1u8
            } else {
                0u8
            },
        ] + le_bytes(0, 4),
        (NodeView::RangeMap { level, children: children.push(entry) }).payload().skip(6) == (
        NodeView::RangeMap { level, children }).payload().skip(6) + le_bytes(
            entry.logical_start as nat,
            8,
        ) + le_bytes(entry.logical_len as nat, 8) + le_bytes(entry.content_offset as nat, 8)
            + le_bytes(entry.child_kind.number() as nat, 2) + entry.child@,
        (NodeView::RangeMap { level, children }).payload().take(6) == seq![
            level,
            if level == 0 {
                1u8
            } else {
                0u8
            },
        ] + le_bytes(children.len(), 4),
{
    lemma_le_bytes_len(children.len(), 4);
    lemma_le_bytes_len(children.len() + 1, 4);
    lemma_le_bytes_len(0, 4);
    let grown = children.push(entry);
    assert(grown.drop_last() =~= children);
    let node = NodeView::RangeMap { level, children };
    let bigger = NodeView::RangeMap { level, children: grown };
    let entries = entries_bytes(children);
    let more = entries_bytes(grown);
    assert(node.payload().skip(6) =~= entries);
    assert(bigger.payload().skip(6) =~= more);
    assert(more == entries + entry_bytes(entry));
    assert(bigger.payload().skip(6) =~= node.payload().skip(6) + le_bytes(
        entry.logical_start as nat,
        8,
    ) + le_bytes(entry.logical_len as nat, 8) + le_bytes(entry.content_offset as nat, 8)
        + le_bytes(entry.child_kind.number() as nat, 2) + entry.child@);
    assert(node.payload().take(6) =~= seq![
        level,
        if level == 0 {
            1u8
        } else {
            0u8
        },
    ] + le_bytes(children.len(), 4));
    assert((NodeView::RangeMap { level, children: Seq::empty() }).payload() =~= seq![
        level,
        if level == 0 {
            1u8
        } else {
            0u8
        },
    ] + le_bytes(0, 4));
}

/// A node's identifier is the digest of its kind, the length of what is written of it, and that;
/// the identifier of contents is the digest of all their bytes.
pub proof fn law_identifiers_are_digests(node: NodeView, bytes: Seq<u8>)
    ensures
        id_of(node) == blake3_digest(
            "cairn/node/v3".spec_bytes() + le_bytes(node.kind().number() as nat, 2) + le_bytes(
                node.payload().len(),
                8,
            ) + node.payload(),
        ),
        node.digest() == id_of(node)@,
        content_id(bytes) == blake3_digest("cairn/logical-bytes/v1".spec_bytes() + bytes),
{
}

/// Which written nodes are read: of contents, a length that is right; of runs and snapshots, a
/// size within limits; of commits, a mark that says whether a parent follows.
pub proof fn law_written_nodes_are_read(payload: Seq<u8>)
    ensures
        ({
            let len = le_value(payload.subrange(0, 8));
            decode_problem(NodeKind::Content, payload) is None <==> payload.len() >= 8 && len
                <= 8_388_608 && payload.len() == 8 + len
        }),
        decode_problem(NodeKind::ZeroRun, payload) is None <==> payload.len() == 8 && le_value(
            payload,
        ) <= 4_294_967_296,
        decode_problem(NodeKind::Snapshot, payload) is None <==> payload.len() == 72 && le_value(
            payload.subrange(0, 8),
        ) <= 4_294_967_296,
        decode_problem(NodeKind::Commit, payload) is None <==> (payload.len() == 33 && payload[32]
            == 0) || (payload.len() == 65 && payload[32] == 1),
{
}

/// What an entry says of its child is right: a content that reaches as far, a run of just that
/// length, or the map one level below with just that span.
pub open spec fn right_about(graph: Graph, level: u8, entry: RangeMapEntry) -> bool {
    graph.dom().contains(entry.child) && match graph[entry.child] {
        NodeView::Content(bytes) => level == 0 && entry.child_kind == NodeKind::Content
            && entry.content_offset + entry.logical_len <= bytes.len() && entry.content_offset
            + entry.logical_len <= u64::MAX,
        NodeView::ZeroRun(len) => level == 0 && entry.child_kind == NodeKind::ZeroRun && len
            == entry.logical_len,
        NodeView::RangeMap { level: below, children } => level == below + 1 && entry.child_kind
            == NodeKind::RangeMap && children.len() > 0 && children[0].logical_start
            == entry.logical_start && children.last().logical_start + children.last().logical_len
            == entry.logical_start + entry.logical_len,
        _ => false,
    }
}

proof fn lemma_right_about(graph: Graph, level: u8, entry: RangeMapEntry)
    requires
        right_about(graph, level, entry),
        entry.logical_start + entry.logical_len <= u64::MAX,
    ensures
        ref_problem(graph, (entry.child, entry.child_kind)) is None,
        child_problem(graph, level, entry) is None,
{
}

/// A map is added where every entry is right about its child.
pub proof fn law_maps_are_added(graph: Graph, level: u8, children: Seq<RangeMapEntry>)
    requires
        well_made(level, children),
        forall|i: int|
            0 <= i < children.len() ==> right_about(graph, level, #[trigger] children[i]),
        ({
            let node = NodeView::RangeMap { level, children };
            graph.dom().contains(id_of(node)) ==> graph[id_of(node)] == node
        }),
    ensures
        insert_problem(graph, NodeView::RangeMap { level, children }) is None,
{
    let node = NodeView::RangeMap { level, children };
    law_nodes_within_limits(
        Seq::empty(),
        0,
        level,
        children,
        arbitrary::<SnapshotNode>(),
        arbitrary::<CommitNode>(),
    );
    let refs = refs_of(node);
    let direct = |i: int| ref_problem(graph, refs[i]);
    let deep = |i: int| child_problem(graph, level, children[i]);
    assert forall|i: int| 0 <= i < refs.len() implies #[trigger] direct(i) is None by {
        assert(right_about(graph, level, children[i]));
        assert(proper_entry(level, children[i]));
        lemma_right_about(graph, level, children[i]);
    }
    lemma_first_clear(direct, 0, refs.len() as int);
    assert forall|i: int| 0 <= i < children.len() implies #[trigger] deep(i) is None by {
        assert(right_about(graph, level, children[i]));
        assert(proper_entry(level, children[i]));
        lemma_right_about(graph, level, children[i]);
    }
    lemma_first_clear(deep, 0, children.len() as int);
}

/// Contents and runs within limits are added; a commit is where its snapshot, and its parent if
/// it has one, are there.
pub proof fn law_leaves_and_commits_are_added(
    graph: Graph,
    bytes: Seq<u8>,
    len: u64,
    commit: CommitNode,
)
    ensures
        bytes.len() <= 8_388_608 && (graph.dom().contains(id_of(NodeView::Content(bytes)))
            ==> graph[id_of(NodeView::Content(bytes))] == NodeView::Content(bytes))
            ==> insert_problem(graph, NodeView::Content(bytes)) is None,
        len <= 4_294_967_296 && (graph.dom().contains(id_of(NodeView::ZeroRun(len)))
            ==> graph[id_of(NodeView::ZeroRun(len))] == NodeView::ZeroRun(len)) ==> insert_problem(
            graph,
            NodeView::ZeroRun(len),
        ) is None,
        graph.dom().contains(commit.snapshot) && graph[commit.snapshot] is Snapshot && (
        commit.parent matches Some(parent) ==> graph.dom().contains(parent)
            && graph[parent] is Commit) && !graph.dom().contains(id_of(NodeView::Commit(commit)))
            ==> insert_problem(graph, NodeView::Commit(commit)) is None,
        !graph.dom().contains(id_of(NodeView::Commit(commit))) && !graph.dom().contains(
            commit.snapshot,
        ) ==> insert_problem(graph, NodeView::Commit(commit)) == Some(
            DagError::MissingNode(commit.snapshot),
        ),
{
    let node = NodeView::Commit(commit);
    let refs = refs_of(node);
    let direct = |i: int| ref_problem(graph, refs[i]);
    if graph.dom().contains(commit.snapshot) && graph[commit.snapshot] is Snapshot && (
    commit.parent matches Some(parent) ==> graph.dom().contains(parent) && graph[parent] is Commit) {
        assert forall|i: int| 0 <= i < refs.len() implies #[trigger] direct(i) is None by {
        }
        lemma_first_clear(direct, 0, refs.len() as int);
    }
    if !graph.dom().contains(commit.snapshot) {
        assert(refs[0] == (commit.snapshot, NodeKind::Snapshot));
        assert(direct(0) == Some(DagError::MissingNode(commit.snapshot)));
        lemma_first_at(direct, 0, 0, refs.len() as int);
    }
    let none = |i: int|
        ref_problem(
            graph,
            refs_of(NodeView::Content(bytes))[i],
        );
    lemma_first_clear(none, 0, 0);
}

/// A snapshot is added where its map covers it from the start to its size within a million
/// extents, and its digest is that of the bytes under the map.
pub proof fn law_snapshots_are_added(
    graph: Graph,
    snapshot: SnapshotNode,
    level: u8,
    children: Seq<RangeMapEntry>,
)
    requires
        snapshot.logical_size <= 4_294_967_296,
        graph.dom().contains(snapshot.range_map_root),
        graph[snapshot.range_map_root] == (NodeView::RangeMap { level, children }),
        well_made(level, children),
        snapshot.logical_size == 0 ==> level == 0 && children.len() == 0,
        snapshot.logical_size > 0 ==> children.len() > 0 && children[0].logical_start == 0
            && children.last().logical_start + children.last().logical_len
            == snapshot.logical_size,
        map_extents(graph, snapshot.range_map_root) <= 1_048_576,
        snapshot.content_digest == content_id(map_bytes(graph, snapshot.range_map_root)),
        !graph.dom().contains(id_of(NodeView::Snapshot(snapshot))),
    ensures
        snapshot_problem(graph, snapshot) is None,
        insert_problem(graph, NodeView::Snapshot(snapshot)) is None,
{
    law_nodes_within_limits(
        Seq::empty(),
        0,
        level,
        children,
        snapshot,
        arbitrary::<CommitNode>(),
    );
    let refs = refs_of(NodeView::Snapshot(snapshot));
    let direct = |i: int| ref_problem(graph, refs[i]);
    assert forall|i: int| 0 <= i < refs.len() implies #[trigger] direct(i) is None by {
    }
    lemma_first_clear(direct, 0, refs.len() as int);
}

/// A snapshot with another digest, or with more than a million extents, is refused.
pub proof fn law_wrong_snapshots_are_refused(graph: Graph, snapshot: SnapshotNode)
    ensures
        snapshot.content_digest@ != content_id(map_bytes(graph, snapshot.range_map_root))@
            ==> snapshot_problem(graph, snapshot) is Some,
        map_extents(graph, snapshot.range_map_root) > 1_048_576 ==> snapshot_problem(graph, snapshot)
            is Some,
        snapshot.logical_size > 4_294_967_296 ==> snapshot_problem(graph, snapshot) == Some(
            DagError::ResourceLimit("Snapshot logical size"),
        ),
        !graph.dom().contains(snapshot.range_map_root) && snapshot.logical_size <= 4_294_967_296
            ==> snapshot_problem(graph, snapshot) == Some(
            DagError::MissingNode(snapshot.range_map_root),
        ),
{
}

/// The bytes that one entry stands for: that part of the content, zeros, or the bytes of the
/// map below.
pub open spec fn stands_for(graph: Graph, entry: RangeMapEntry) -> Seq<u8> {
    match graph[entry.child] {
        NodeView::Content(bytes) => bytes.subrange(
            entry.content_offset as int,
            entry.content_offset + entry.logical_len,
        ),
        NodeView::ZeroRun(_) => zeros(entry.logical_len as nat),
        _ => map_bytes(graph, entry.child),
    }
}

/// The bytes under a map are those of its entries, each at its place.
pub proof fn law_bytes_lie_where_entries_say(
    graph: Graph,
    level: u8,
    entries: Seq<RangeMapEntry>,
    start: int,
    end: int,
    i: int,
)
    requires
        sound(graph),
        run_ok(graph, level, entries, start, end),
        0 <= i < entries.len(),
    ensures
        run_bytes(graph, level, entries).len() == end - start,
        start <= entries[i].logical_start,
        entries[i].logical_start + entries[i].logical_len <= end,
        run_bytes(graph, level, entries).subrange(
            entries[i].logical_start - start,
            entries[i].logical_start + entries[i].logical_len - start,
        ) == stands_for(graph, entries[i]),
    decreases entries.len(),
{
    lemma_run_len(graph, level, entries, start, end);
    lemma_run_front(graph, level, entries, start, end);
    let rest = entries.drop_last();
    let last = entries.last();
    lemma_run_len(graph, level, rest, start, last.logical_start as int);
    let whole = run_bytes(graph, level, entries);
    let front = run_bytes(graph, level, rest);
    assert(entry_ok(graph, level, entries[entries.len() - 1]));
    let part = entry_content(graph, level, last);
    assert(whole == front + part);
    if i == entries.len() - 1 {
        assert(whole.subrange(
            last.logical_start - start,
            last.logical_start + last.logical_len - start,
        ) =~= part);
        assert(part == stands_for(graph, last));
    } else {
        law_bytes_lie_where_entries_say(
            graph,
            level,
            rest,
            start,
            last.logical_start as int,
            i,
        );
        assert(rest[i] == entries[i]);
        assert(whole.subrange(
            entries[i].logical_start - start,
            entries[i].logical_start + entries[i].logical_len - start,
        ) =~= front.subrange(
            entries[i].logical_start - start,
            entries[i].logical_start + entries[i].logical_len - start,
        ));
    }
}

/// Where a map lies: from its first entry to the end of its last.
pub proof fn law_spans(children: Seq<RangeMapEntry>)
    ensures
        children.len() == 0 ==> span_of(children) is None,
        children.len() > 0 && children[0].logical_start <= children.last().logical_start
            + children.last().logical_len <= u64::MAX ==> span_of(children) == Some(
            (
                children[0].logical_start,
                (children.last().logical_start + children.last().logical_len
                    - children[0].logical_start) as u64,
            ),
        ),
{
}

/// An operation is bound to a commit that is there with its snapshot, once: the same commit
/// again is fine, another is a conflict.
pub proof fn law_operations_are_bound(
    graph: Graph,
    bindings: Map<OperationId, OperationBinding>,
    op: OperationId,
    commit_id: CommitId,
    commit: CommitNode,
    snapshot: SnapshotNode,
)
    requires
        graph.dom().contains(commit_id),
        graph[commit_id] == NodeView::Commit(commit),
        NodeView::Commit(commit).digest() == commit_id@,
        graph.dom().contains(commit.snapshot),
        graph[commit.snapshot] == NodeView::Snapshot(snapshot),
    ensures
        !bindings.dom().contains(op) || bindings[op].commit_id == commit_id ==> bind_problem(
            graph,
            bindings,
            op,
            commit_id,
        ) is None,
        bindings.dom().contains(op) && bindings[op].commit_id != commit_id ==> bind_problem(
            graph,
            bindings,
            op,
            commit_id,
        ) == Some(DagError::OperationConflict(op)),
        receipt_at(graph, op, commit_id) == Some(
            CommitReceipt {
                operation_id: op,
                commit_id,
                snapshot_id: commit.snapshot,
                snapshot_size: snapshot.logical_size,
                snapshot_digest: snapshot.content_digest,
                parent: commit.parent,
            },
        ),
        bindings.dom().contains(op) && bindings[op].commit_id == commit_id ==> bound(
            graph,
            bindings,
            op,
        ) == Some((receipt_at(graph, op, commit_id)->0, bindings[op].state)),
{
}

/// Nothing is bound to what is not there or is no commit, and what is not bound has no receipt.
pub proof fn law_other_nodes_are_not_bound(
    graph: Graph,
    bindings: Map<OperationId, OperationBinding>,
    op: OperationId,
    other: OperationId,
    commit_id: CommitId,
)
    ensures
        !graph.dom().contains(commit_id) ==> bind_problem(graph, bindings, op, commit_id) == Some(
            DagError::MissingNode(commit_id),
        ),
        graph.dom().contains(commit_id) && !(graph[commit_id] is Commit) ==> bind_problem(
            graph,
            bindings,
            op,
            commit_id,
        ) == Some(DagError::InvalidReference(commit_id)),
        !bindings.dom().contains(op) ==> bound(graph, bindings, op) is None,
        with_tombstone(bindings, op)[op].state == DagOperationBindingState::Tombstoned,
        with_tombstone(bindings, op)[op].commit_id == bindings[op].commit_id,
        other != op ==> with_tombstone(bindings, op)[other] == bindings[other]
            && with_tombstone(bindings, op).dom().contains(other) == bindings.dom().contains(other),
{
}

/// What a node refers to: a map to its children, a snapshot to its map, a commit to its
/// snapshot and its parent, and a leaf to nothing.
pub open spec fn refers_to(node: NodeView, to: NodeId) -> bool {
    match node {
        NodeView::Content(_) => false,
        NodeView::ZeroRun(_) => false,
        NodeView::RangeMap { level, children } => exists|i: int|
            0 <= i < children.len() && (#[trigger] children[i]).child == to,
        NodeView::Snapshot(snapshot) => snapshot.range_map_root == to,
        NodeView::Commit(commit) => commit.snapshot == to || commit.parent == Some(to),
    }
}

/// The edges of the graph are the references of its nodes.
pub proof fn law_references(graph: Graph, from: NodeId, to: NodeId)
    ensures
        edge(graph, from, to) == (graph.dom().contains(from) && refers_to(graph[from], to)),
{
    let refs = refs_of(graph[from]);
    if edge(graph, from, to) {
        let k = choose|k: int| 0 <= k < refs.len() && (#[trigger] refs[k]).0 == to;
        if let NodeView::RangeMap { level, children } = graph[from] {
            assert(children[k].child == to);
        }
        if let NodeView::Commit(commit) = graph[from] {
            assert(k == 0 || k == 1);
        }
    }
    if let NodeView::RangeMap { level, children } = graph[from] {
        if exists|i: int| 0 <= i < children.len() && (#[trigger] children[i]).child == to {
            let i = choose|i: int| 0 <= i < children.len() && (#[trigger] children[i]).child == to;
            assert(refs[i].0 == to);
        }
    }
    if let NodeView::Snapshot(snapshot) = graph[from] {
        assert(refs[0].0 == snapshot.range_map_root);
    }
    if let NodeView::Commit(commit) = graph[from] {
        assert(refs[0].0 == commit.snapshot);
        if commit.parent is Some {
            assert(refs[1].0 == commit.parent->0);
        }
    }
}

/// What is reached: a node itself, what it refers to, and what that reaches.
pub proof fn law_reaching_goes_on(graph: Graph, from: NodeId, next: NodeId, to: NodeId)
    ensures
        reaches(graph, from, from),
        edge(graph, from, next) && reaches(graph, next, to) ==> reaches(graph, from, to),
        reaches(graph, from, to) && from != to ==> exists|step: NodeId| #[trigger]
            edge(graph, from, step) && reaches(graph, step, to),
{
    let alone = seq![from];
    assert(is_path(graph, alone) && alone[0] == from && alone.last()
        == from);
    if edge(graph, from, next) && reaches(graph, next, to) {
        let path = choose|path: Seq<NodeId>| #[trigger]
            is_path(graph, path) && path[0] == next && path.last() == to;
        let longer = seq![from] + path;
        assert forall|i: int, j: int|
            #![trigger longer[i], longer[j]]
            0 <= i && j == i + 1 && j < longer.len() implies edge(graph, longer[i], longer[j]) by {
            if i > 0 {
                assert(path[i - 1] == longer[i] && path[j - 1] == longer[j]);
            }
        }
        assert(longer.last() == path.last());
        assert(is_path(graph, longer) && longer[0] == from);
    }
    if reaches(graph, from, to) && from != to {
        let path = choose|path: Seq<NodeId>| #[trigger]
            is_path(graph, path) && path[0] == from && path.last() == to;
        if path.len() > 1 {
            let rest = path.drop_first();
            assert forall|i: int, j: int|
                #![trigger rest[i], rest[j]]
                0 <= i && j == i + 1 && j < rest.len() implies edge(graph, rest[i], rest[j]) by {
                assert(rest[i] == path[i + 1] && rest[j] == path[j + 1]);
            }
            assert(rest[0] == path[1] && path[0] == from);
            assert(rest.last() == path.last());
            assert(is_path(graph, rest));
            assert(edge(graph, from, rest[0]));
        }
    }
}

/// The digest of a map that covers just that many bytes is the digest of the bytes; one that
/// is not there, or no map, has none.
pub proof fn law_maps_are_digested(
    graph: Graph,
    root: NodeId,
    size: u64,
    level: u8,
    children: Seq<RangeMapEntry>,
)
    ensures
        graph.dom().contains(root) && graph[root] == (NodeView::RangeMap { level, children })
            && children.len() > 0 && children[0].logical_start == 0 && children.last().logical_start
            + children.last().logical_len <= size && map_extents(graph, root) <= 1_048_576
            ==> digest_result(graph, root, size) == Ok::<NodeId, DagError>(
            content_id(map_bytes(graph, root)),
        ),
        !graph.dom().contains(root) ==> digest_result(graph, root, size) == Err::<NodeId, DagError>(
            DagError::MissingNode(root),
        ),
        graph.dom().contains(root) && !(graph[root] is RangeMap) ==> digest_result(
            graph,
            root,
            size,
        ) is Err,
        graph.dom().contains(root) && map_extents(graph, root) > 1_048_576 ==> digest_result(
            graph,
            root,
            size,
        ) is Err,
{
}

/// Numbers are written with their lowest byte first, in as many bytes as are asked for.
pub proof fn law_numbers_are_written_low_byte_first(value: nat, low: u8, width: nat)
    requires
        width > 0,
    ensures
        le_bytes(256 * value + low as nat, width) == seq![low] + le_bytes(value, (width - 1) as nat),
        le_bytes(value, width).len() == width,
        le_bytes(value, 0) == Seq::<u8>::empty(),
        value < 0x1_0000_0000_0000_0000 ==> le_value(le_bytes(value, 8)) == value,
        value < 0x1_0000_0000 ==> le_value(le_bytes(value, 4)) == value,
        value < 0x1_0000 ==> le_value(le_bytes(value, 2)) == value,
{
    lemma_le_bytes_len(value, width);
    lemma_pow256_values();
    let whole = 256 * value + low as nat;
    assert(whole % 256 == low as nat);
    assert(whole / 256 == value);
    if value < 0x1_0000_0000_0000_0000 {
        lemma_le_roundtrip(value, 8);
    }
    if value < 0x1_0000_0000 {
        lemma_le_roundtrip(value, 4);
    }
    if value < 0x1_0000 {
        lemma_le_roundtrip(value, 2);
    }
}

/// A map with an entry that is wrong about its child is refused.
pub proof fn law_wrong_maps_are_refused(
    graph: Graph,
    level: u8,
    children: Seq<RangeMapEntry>,
    i: int,
)
    requires
        0 <= i < children.len(),
        !graph.dom().contains(id_of(NodeView::RangeMap { level, children })),
        !right_about(graph, level, children[i]) || !well_made(level, children),
        sound(graph),
    ensures
        insert_problem(graph, NodeView::RangeMap { level, children }) is Some,
{
    let node = NodeView::RangeMap { level, children };
    law_nodes_within_limits(
        Seq::empty(),
        0,
        level,
        children,
        arbitrary::<SnapshotNode>(),
        arbitrary::<CommitNode>(),
    );
    if node.problem() is None && reference_problem(graph, node) is None {
        let refs = refs_of(node);
        let direct = |k: int| ref_problem(graph, refs[k]);
        let deep = |k: int| child_problem(graph, level, children[k]);
        lemma_first_none(direct, 0, refs.len() as int, i);
        lemma_first_none(deep, 0, children.len() as int, i);
        assert(direct(i) is None && deep(i) is None);
        assert(refs[i] == (children[i].child, children[i].child_kind));
        assert(proper_entry(level, children[i]));
        if let NodeView::RangeMap { level: below, children: inner } = graph[children[i].child] {
            assert(node_sound(graph, children[i].child));
            if inner.len() > 0 {
                lemma_span_order(graph, below, inner);
            }
        }
        assert(right_about(graph, level, children[i]));
    }
}

} // verus!
