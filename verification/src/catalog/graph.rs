//! The mathematics of the node graph: references, contents, soundness.
use vstd::prelude::*;

use crate::bytes::{lemma_id_view, zeros};
use crate::catalog::ids::NodeId;
use crate::catalog::node::{
    child_allowed, entry_problem, head_of, heads_of, lemma_well_shaped, logical_digest, payload_id,
    shape_problem, span_of, DagError, NodeKind, NodeView, RangeMapEntry, SnapshotNode,
    MAX_CHILDREN, MAX_LEVEL, MAX_LOGICAL_FILE_SIZE, MAX_SNAPSHOT_EXTENTS,
};
use crate::first::{first_some, lemma_first_clear, lemma_first_none};

verus! {

/// The nodes that are there, by identifier.
pub type Graph = Map<NodeId, NodeView>;

/// The identifier of a node.
pub open spec fn id_of(node: NodeView) -> NodeId {
    payload_id(node.kind(), node.payload())
}

pub proof fn lemma_id_of(id: NodeId, node: NodeView)
    requires
        id@ == node.digest(),
    ensures
        id_of(node) == id,
{
    lemma_id_view(id_of(node), id);
}

/// The nodes that a node refers to, with the kinds they must have.
pub open spec fn refs_of(node: NodeView) -> Seq<(NodeId, NodeKind)> {
    match node {
        NodeView::RangeMap { level, children } => Seq::new(
            children.len(),
            |i: int| (children[i].child, children[i].child_kind),
        ),
        NodeView::Snapshot(snapshot) => seq![(snapshot.range_map_root, NodeKind::RangeMap)],
        NodeView::Commit(commit) => match commit.parent {
            Some(parent) => seq![
                (commit.snapshot, NodeKind::Snapshot),
                (parent, NodeKind::Commit),
            ],
            None => seq![(commit.snapshot, NodeKind::Snapshot)],
        },
        _ => Seq::empty(),
    }
}

/// What is wrong with a reference, if anything.
pub open spec fn ref_problem(graph: Graph, reference: (NodeId, NodeKind)) -> Option<DagError> {
    if !graph.dom().contains(reference.0) {
        Some(DagError::MissingNode(reference.0))
    } else if graph[reference.0].kind() != reference.1 {
        Some(
            DagError::ReferenceKind {
                expected: reference.1,
                actual: graph[reference.0].kind(),
            },
        )
    } else {
        None
    }
}

/// What is wrong with what an entry of a map at `level` says of its child, if
/// anything.
pub open spec fn child_problem(graph: Graph, level: u8, entry: RangeMapEntry) -> Option<
    DagError,
> {
    match graph[entry.child] {
        NodeView::Content(bytes) => if level != 0 {
            Some(DagError::InvalidSnapshot("RangeMap child level or kind mismatch"))
        } else if entry.content_offset + entry.logical_len > u64::MAX {
            Some(DagError::ArithmeticOverflow)
        } else if entry.content_offset + entry.logical_len > bytes.len() {
            Some(DagError::InvalidSnapshot("Content range exceeds node length"))
        } else {
            None
        },
        NodeView::ZeroRun(len) => if level != 0 {
            Some(DagError::InvalidSnapshot("RangeMap child level or kind mismatch"))
        } else if len != entry.logical_len {
            Some(DagError::InvalidSnapshot("ZeroRun length mismatch"))
        } else {
            None
        },
        NodeView::RangeMap { level: below, children } => if level == 0 || below + 1 != level {
            Some(DagError::InvalidSnapshot("RangeMap child level or kind mismatch"))
        } else if span_of(children) != Some((entry.logical_start, entry.logical_len)) {
            Some(DagError::InvalidSnapshot("child RangeMap span mismatch"))
        } else {
            None
        },
        _ => Some(DagError::InvalidSnapshot("RangeMap child level or kind mismatch")),
    }
}

/// What is wrong with a node's references, if anything.
pub open spec fn reference_problem(graph: Graph, node: NodeView) -> Option<DagError> {
    let refs = refs_of(node);
    let direct = first_some(|i: int| ref_problem(graph, refs[i]), 0, refs.len() as int);
    if direct is Some {
        direct
    } else {
        match node {
            NodeView::RangeMap { level, children } => first_some(
                |i: int| child_problem(graph, level, children[i]),
                0,
                children.len() as int,
            ),
            _ => None,
        }
    }
}

/// The logical bytes that the entries of a map at `level` stand for.
pub open spec fn run_bytes(graph: Graph, level: u8, entries: Seq<RangeMapEntry>) -> Seq<u8>
    decreases level, entries.len(),
{
    if entries.len() == 0 {
        Seq::empty()
    } else {
        run_bytes(graph, level, entries.drop_last()) + match graph[entries.last().child] {
            NodeView::Content(bytes) => bytes.subrange(
                entries.last().content_offset as int,
                entries.last().content_offset + entries.last().logical_len,
            ),
            NodeView::ZeroRun(len) => zeros(len as nat),
            NodeView::RangeMap { level: below, children } => if below < level {
                run_bytes(graph, below, children)
            } else {
                Seq::empty()
            },
            _ => Seq::empty(),
        }
    }
}

/// The logical bytes that one entry of a map at `level` stands for.
pub open spec fn entry_content(graph: Graph, level: u8, entry: RangeMapEntry) -> Seq<u8> {
    match graph[entry.child] {
        NodeView::Content(bytes) => bytes.subrange(
            entry.content_offset as int,
            entry.content_offset + entry.logical_len,
        ),
        NodeView::ZeroRun(len) => zeros(len as nat),
        NodeView::RangeMap { level: below, children } => if below < level {
            run_bytes(graph, below, children)
        } else {
            Seq::empty()
        },
        _ => Seq::empty(),
    }
}

/// How many leaves the entries of a map at `level` lead to.
pub open spec fn extents(graph: Graph, level: u8, entries: Seq<RangeMapEntry>) -> nat
    decreases level, entries.len(),
{
    if entries.len() == 0 {
        0
    } else {
        extents(graph, level, entries.drop_last()) + match graph[entries.last().child] {
            NodeView::Content(_) | NodeView::ZeroRun(_) => 1,
            NodeView::RangeMap { level: below, children } => if below < level {
                extents(graph, below, children)
            } else {
                0
            },
            _ => 0,
        }
    }
}

pub open spec fn entry_extents(graph: Graph, level: u8, entry: RangeMapEntry) -> nat {
    match graph[entry.child] {
        NodeView::Content(_) | NodeView::ZeroRun(_) => 1,
        NodeView::RangeMap { level: below, children } => if below < level {
            extents(graph, below, children)
        } else {
            0
        },
        _ => 0,
    }
}

/// The leaves that the entries of a map at `level` lead to, in order.
pub open spec fn leaves_of(graph: Graph, level: u8, entries: Seq<RangeMapEntry>) -> Seq<
    RangeMapEntry,
>
    decreases level, entries.len(),
{
    if entries.len() == 0 {
        Seq::empty()
    } else {
        leaves_of(graph, level, entries.drop_last()) + match graph[entries.last().child] {
            NodeView::RangeMap { level: below, children } => if below < level {
                leaves_of(graph, below, children)
            } else {
                Seq::empty()
            },
            _ => seq![entries.last()],
        }
    }
}

pub open spec fn entry_leaves(graph: Graph, level: u8, entry: RangeMapEntry) -> Seq<
    RangeMapEntry,
> {
    match graph[entry.child] {
        NodeView::RangeMap { level: below, children } => if below < level {
            leaves_of(graph, below, children)
        } else {
            Seq::empty()
        },
        _ => seq![entry],
    }
}

/// An entry of a map at `level` that is right in itself and about its child.
pub open spec fn entry_ok(graph: Graph, level: u8, entry: RangeMapEntry) -> bool {
    &&& entry.logical_len > 0
    &&& entry.logical_start + entry.logical_len <= u64::MAX
    &&& child_allowed(level, head_of(entry))
    &&& ref_problem(graph, (entry.child, entry.child_kind)) is None
    &&& child_problem(graph, level, entry) is None
}

/// Entries that follow each other without gap from `start` to `end`.
pub open spec fn run_ok(
    graph: Graph,
    level: u8,
    entries: Seq<RangeMapEntry>,
    start: int,
    end: int,
) -> bool {
    &&& forall|i: int| 0 <= i < entries.len() ==> entry_ok(graph, level, #[trigger] entries[i])
    &&& forall|i: int, j: int|
        #![trigger entries[i], entries[j]]
        0 <= i && j == i + 1 && j < entries.len() ==> entries[j].logical_start
            == entries[i].logical_start + entries[i].logical_len
    &&& if entries.len() == 0 {
        start == end
    } else {
        entries[0].logical_start == start && entries.last().logical_start
            + entries.last().logical_len == end
    }
}

/// What is wrong with the shape of a snapshot, if anything.
pub open spec fn snapshot_shape_problem(graph: Graph, snapshot: SnapshotNode) -> Option<
    DagError,
> {
    if snapshot.logical_size > MAX_LOGICAL_FILE_SIZE {
        Some(DagError::ResourceLimit("Snapshot logical size"))
    } else if !graph.dom().contains(snapshot.range_map_root) {
        Some(DagError::MissingNode(snapshot.range_map_root))
    } else {
        match graph[snapshot.range_map_root] {
            NodeView::RangeMap { level, children } => if shape_problem(
                level,
                heads_of(children),
            ) is Some {
                shape_problem(level, heads_of(children))
            } else if snapshot.logical_size == 0 {
                if level != 0 || children.len() != 0 {
                    Some(DagError::InvalidSnapshot("non-canonical empty root"))
                } else {
                    None
                }
            } else if span_of(children) != Some((0u64, snapshot.logical_size)) {
                Some(DagError::InvalidSnapshot("root does not cover Snapshot"))
            } else {
                None
            },
            node => Some(
                DagError::ReferenceKind { expected: NodeKind::RangeMap, actual: node.kind() },
            ),
        }
    }
}

/// The logical bytes under a range map.
pub open spec fn map_bytes(graph: Graph, root: NodeId) -> Seq<u8> {
    match graph[root] {
        NodeView::RangeMap { level, children } => run_bytes(graph, level, children),
        _ => Seq::empty(),
    }
}

/// How many leaves a range map leads to.
pub open spec fn map_extents(graph: Graph, root: NodeId) -> nat {
    match graph[root] {
        NodeView::RangeMap { level, children } => extents(graph, level, children),
        _ => 0,
    }
}

/// What is wrong with a snapshot, if anything.
pub open spec fn snapshot_problem(graph: Graph, snapshot: SnapshotNode) -> Option<DagError> {
    if snapshot_shape_problem(graph, snapshot) is Some {
        snapshot_shape_problem(graph, snapshot)
    } else if map_extents(graph, snapshot.range_map_root) > MAX_SNAPSHOT_EXTENTS {
        Some(DagError::ResourceLimit("Snapshot extent count"))
    } else if logical_digest(map_bytes(graph, snapshot.range_map_root))
        != snapshot.content_digest@ {
        Some(DagError::InvalidSnapshot("content digest mismatch"))
    } else {
        None
    }
}

/// A node that is where it belongs and is right about everything it refers to.
pub open spec fn node_sound(graph: Graph, id: NodeId) -> bool {
    let node = graph[id];
    &&& node.problem() is None
    &&& node.digest() == id@
    &&& reference_problem(graph, node) is None
    &&& node matches NodeView::Snapshot(snapshot) ==> snapshot_problem(graph, snapshot) is None
}

/// Every node is sound.
pub open spec fn sound(graph: Graph) -> bool {
    forall|id: NodeId| #[trigger] graph.dom().contains(id) ==> node_sound(graph, id)
}

/// Everything in `graph` is in `larger`, unchanged.
pub open spec fn extends(graph: Graph, larger: Graph) -> bool {
    forall|id: NodeId| #[trigger]
        graph.dom().contains(id) ==> larger.dom().contains(id) && larger[id] == graph[id]
}

pub proof fn lemma_run_step(graph: Graph, level: u8, entries: Seq<RangeMapEntry>)
    requires
        entries.len() > 0,
    ensures
        run_bytes(graph, level, entries) == run_bytes(graph, level, entries.drop_last())
            + entry_content(graph, level, entries.last()),
        extents(graph, level, entries) == extents(graph, level, entries.drop_last())
            + entry_extents(graph, level, entries.last()),
        leaves_of(graph, level, entries) == leaves_of(graph, level, entries.drop_last())
            + entry_leaves(graph, level, entries.last()),
{
}

pub proof fn lemma_run_push(
    graph: Graph,
    level: u8,
    entries: Seq<RangeMapEntry>,
    entry: RangeMapEntry,
)
    ensures
        run_bytes(graph, level, entries.push(entry)) == run_bytes(graph, level, entries)
            + entry_content(graph, level, entry),
        extents(graph, level, entries.push(entry)) == extents(graph, level, entries)
            + entry_extents(graph, level, entry),
        leaves_of(graph, level, entries.push(entry)) == leaves_of(graph, level, entries)
            + entry_leaves(graph, level, entry),
{
    assert(entries.push(entry).drop_last() =~= entries);
    lemma_run_step(graph, level, entries.push(entry));
}

pub proof fn lemma_run_concat(
    graph: Graph,
    level: u8,
    a: Seq<RangeMapEntry>,
    b: Seq<RangeMapEntry>,
)
    ensures
        run_bytes(graph, level, a + b) == run_bytes(graph, level, a) + run_bytes(graph, level, b),
        extents(graph, level, a + b) == extents(graph, level, a) + extents(graph, level, b),
    decreases b.len(),
{
    if b.len() == 0 {
        assert(a + b =~= a);
        assert(run_bytes(graph, level, a) + run_bytes(graph, level, b) =~= run_bytes(
            graph,
            level,
            a,
        ));
    } else {
        lemma_run_concat(graph, level, a, b.drop_last());
        assert((a + b).drop_last() =~= a + b.drop_last());
        lemma_run_step(graph, level, a + b);
        lemma_run_step(graph, level, b);
        assert(run_bytes(graph, level, a + b) =~= run_bytes(graph, level, a) + run_bytes(
            graph,
            level,
            b,
        ));
    }
}

/// A sound range map's entries form a run over its span.
pub proof fn lemma_map_run(graph: Graph, level: u8, children: Seq<RangeMapEntry>)
    requires
        (NodeView::RangeMap { level, children }).problem() is None,
        reference_problem(graph, NodeView::RangeMap { level, children }) is None,
    ensures
        level <= MAX_LEVEL,
        children.len() <= MAX_CHILDREN,
        children.len() == 0 ==> level == 0 && run_ok(graph, level, children, 0, 0),
        children.len() > 0 ==> run_ok(
            graph,
            level,
            children,
            children[0].logical_start as int,
            children.last().logical_start + children.last().logical_len,
        ),
{
    lemma_well_shaped(level, children);
    let node = NodeView::RangeMap { level, children };
    let refs = refs_of(node);
    let direct = |i: int| ref_problem(graph, refs[i]);
    let deep = |i: int| child_problem(graph, level, children[i]);
    assert forall|i: int| 0 <= i < children.len() implies entry_ok(
        graph,
        level,
        #[trigger] children[i],
    ) by {
        lemma_first_none(direct, 0, refs.len() as int, i);
        assert(direct(i) is None);
        assert(refs[i] == (children[i].child, children[i].child_kind));
        lemma_first_none(deep, 0, children.len() as int, i);
        assert(deep(i) is None);
    }
}

/// A run that is short enough makes a range map with nothing wrong.
pub proof fn lemma_run_map(
    graph: Graph,
    level: u8,
    children: Seq<RangeMapEntry>,
    start: int,
    end: int,
)
    requires
        run_ok(graph, level, children, start, end),
        level <= MAX_LEVEL,
        children.len() <= MAX_CHILDREN,
        children.len() == 0 ==> level == 0,
    ensures
        (NodeView::RangeMap { level, children }).problem() is None,
        reference_problem(graph, NodeView::RangeMap { level, children }) is None,
{
    let heads = heads_of(children);
    let shape = |i: int| entry_problem(level, heads, i);
    assert forall|i: int| 0 <= i < heads.len() implies #[trigger] shape(i) is None by {
        assert(entry_ok(graph, level, children[i]));
        assert(heads[i] == head_of(children[i]));
        if i > 0 {
            assert(heads[i - 1] == head_of(children[i - 1]));
            assert(children[i].logical_start == children[i - 1].logical_start + children[i
                - 1].logical_len);
        }
    }
    lemma_first_clear(shape, 0, heads.len() as int);
    let node = NodeView::RangeMap { level, children };
    let refs = refs_of(node);
    let direct = |i: int| ref_problem(graph, refs[i]);
    let deep = |i: int| child_problem(graph, level, children[i]);
    assert forall|i: int| 0 <= i < refs.len() implies #[trigger] direct(i) is None by {
        assert(entry_ok(graph, level, children[i]));
        assert(refs[i] == (children[i].child, children[i].child_kind));
    }
    lemma_first_clear(direct, 0, refs.len() as int);
    assert forall|i: int| 0 <= i < children.len() implies #[trigger] deep(i) is None by {
        assert(entry_ok(graph, level, children[i]));
    }
    lemma_first_clear(deep, 0, children.len() as int);
}

/// The parts of a run are runs.
pub proof fn lemma_run_part(
    graph: Graph,
    level: u8,
    entries: Seq<RangeMapEntry>,
    start: int,
    end: int,
    from: int,
    to: int,
)
    requires
        run_ok(graph, level, entries, start, end),
        0 <= from < to <= entries.len(),
    ensures
        run_ok(
            graph,
            level,
            entries.subrange(from, to),
            entries[from].logical_start as int,
            entries[to - 1].logical_start + entries[to - 1].logical_len,
        ),
        from > 0 ==> entries[from].logical_start == entries[from - 1].logical_start
            + entries[from - 1].logical_len,
{
    let part = entries.subrange(from, to);
    assert forall|i: int| 0 <= i < part.len() implies entry_ok(
        graph,
        level,
        #[trigger] part[i],
    ) by {
        assert(part[i] == entries[from + i]);
    }
    assert forall|i: int, j: int|
        #![trigger part[i], part[j]]
        0 <= i && j == i + 1 && j < part.len() implies part[j].logical_start
        == part[i].logical_start + part[i].logical_len by {
        assert(part[i] == entries[from + i] && part[j] == entries[from + j]);
    }
    assert(part.last() == entries[to - 1]);
    if from > 0 {
        assert(entries[from - 1] == entries[from - 1]);
        assert(entries[from] == entries[from]);
    }
}

pub proof fn lemma_run_front(
    graph: Graph,
    level: u8,
    entries: Seq<RangeMapEntry>,
    start: int,
    end: int,
)
    requires
        run_ok(graph, level, entries, start, end),
        entries.len() > 0,
    ensures
        run_ok(
            graph,
            level,
            entries.drop_last(),
            start,
            entries.last().logical_start as int,
        ),
{
    if entries.len() == 1 {
        assert(entries.drop_last() =~= Seq::empty());
    } else {
        let n = entries.len() as int;
        lemma_run_part(graph, level, entries, start, end, 0, n - 1);
        assert(entries.subrange(0, n - 1) =~= entries.drop_last());
        assert(entries[n - 1].logical_start == entries[n - 2].logical_start + entries[n
            - 2].logical_len);
    }
}

pub proof fn lemma_run_extend(
    graph: Graph,
    level: u8,
    entries: Seq<RangeMapEntry>,
    start: int,
    end: int,
    entry: RangeMapEntry,
)
    requires
        run_ok(graph, level, entries, start, end),
        entry_ok(graph, level, entry),
        entry.logical_start == end,
    ensures
        run_ok(
            graph,
            level,
            entries.push(entry),
            start,
            entry.logical_start + entry.logical_len,
        ),
{
    let longer = entries.push(entry);
    assert forall|i: int| 0 <= i < longer.len() implies entry_ok(
        graph,
        level,
        #[trigger] longer[i],
    ) by {
        if i < entries.len() {
            assert(longer[i] == entries[i]);
        }
    }
    assert forall|i: int, j: int|
        #![trigger longer[i], longer[j]]
        0 <= i && j == i + 1 && j < longer.len() implies longer[j].logical_start
        == longer[i].logical_start + longer[i].logical_len by {
        assert(longer[i] == entries[i]);
        if j < entries.len() {
            assert(longer[j] == entries[j]);
        }
    }
}

/// The bytes of a run are as many as it covers.
pub proof fn lemma_run_len(
    graph: Graph,
    level: u8,
    entries: Seq<RangeMapEntry>,
    start: int,
    end: int,
)
    requires
        sound(graph),
        run_ok(graph, level, entries, start, end),
    ensures
        run_bytes(graph, level, entries).len() == end - start,
        start <= end,
        entries.len() > 0 ==> start < end,
    decreases level, entries.len(), 1int,
{
    if entries.len() > 0 {
        lemma_run_front(graph, level, entries, start, end);
        lemma_run_len(
            graph,
            level,
            entries.drop_last(),
            start,
            entries.last().logical_start as int,
        );
        lemma_entry_len(graph, level, entries.last());
        lemma_run_step(graph, level, entries);
    }
}

/// The bytes of an entry are as many as it covers.
pub proof fn lemma_entry_len(graph: Graph, level: u8, entry: RangeMapEntry)
    requires
        sound(graph),
        entry_ok(graph, level, entry),
    ensures
        entry_content(graph, level, entry).len() == entry.logical_len,
    decreases level, 0int, 0int,
{
    match graph[entry.child] {
        NodeView::RangeMap { level: below, children } => {
            assert(node_sound(graph, entry.child));
            lemma_map_run(graph, below, children);
            assert(children.len() > 0);
            lemma_run_len(
                graph,
                below,
                children,
                children[0].logical_start as int,
                children.last().logical_start + children.last().logical_len,
            );
        },
        _ => {},
    }
}

/// What a sound graph says of a run stays true when nodes are added.
pub proof fn lemma_run_stable(
    graph: Graph,
    larger: Graph,
    level: u8,
    entries: Seq<RangeMapEntry>,
    start: int,
    end: int,
)
    requires
        sound(graph),
        extends(graph, larger),
        run_ok(graph, level, entries, start, end),
    ensures
        run_ok(larger, level, entries, start, end),
        run_bytes(larger, level, entries) == run_bytes(graph, level, entries),
        extents(larger, level, entries) == extents(graph, level, entries),
    decreases level, entries.len(),
{
    assert forall|i: int| 0 <= i < entries.len() implies entry_ok(
        larger,
        level,
        #[trigger] entries[i],
    ) by {
        assert(entry_ok(graph, level, entries[i]));
    }
    if entries.len() > 0 {
        let last = entries.last();
        assert(entry_ok(graph, level, entries[entries.len() - 1]));
        lemma_run_front(graph, level, entries, start, end);
        lemma_run_stable(
            graph,
            larger,
            level,
            entries.drop_last(),
            start,
            last.logical_start as int,
        );
        match graph[last.child] {
            NodeView::RangeMap { level: below, children } => {
                assert(node_sound(graph, last.child));
                lemma_map_run(graph, below, children);
                lemma_run_stable(
                    graph,
                    larger,
                    below,
                    children,
                    children[0].logical_start as int,
                    children.last().logical_start + children.last().logical_len,
                );
            },
            _ => {},
        }
    }
}

proof fn lemma_reference_stable(graph: Graph, larger: Graph, node: NodeView)
    requires
        extends(graph, larger),
        reference_problem(graph, node) is None,
    ensures
        reference_problem(larger, node) is None,
{
    let refs = refs_of(node);
    let before = |i: int| ref_problem(graph, refs[i]);
    let after = |i: int| ref_problem(larger, refs[i]);
    assert forall|i: int| 0 <= i < refs.len() implies #[trigger] after(i) is None by {
        lemma_first_none(before, 0, refs.len() as int, i);
        assert(before(i) is None);
    }
    lemma_first_clear(after, 0, refs.len() as int);
    if let NodeView::RangeMap { level, children } = node {
        let deep_before = |i: int| child_problem(graph, level, children[i]);
        let deep_after = |i: int| child_problem(larger, level, children[i]);
        assert forall|i: int| 0 <= i < children.len() implies #[trigger] deep_after(i) is None by {
            lemma_first_none(before, 0, refs.len() as int, i);
            assert(before(i) is None);
            assert(refs[i] == (children[i].child, children[i].child_kind));
            lemma_first_none(deep_before, 0, children.len() as int, i);
            assert(deep_before(i) is None);
        }
        lemma_first_clear(deep_after, 0, children.len() as int);
    }
}

/// What a sound graph says of a snapshot stays true when nodes are added.
pub proof fn lemma_snapshot_stable(graph: Graph, larger: Graph, snapshot: SnapshotNode)
    requires
        sound(graph),
        extends(graph, larger),
        snapshot_shape_problem(graph, snapshot) is None,
    ensures
        snapshot_problem(larger, snapshot) == snapshot_problem(graph, snapshot),
        snapshot_shape_problem(larger, snapshot) is None,
        map_bytes(larger, snapshot.range_map_root) == map_bytes(graph, snapshot.range_map_root),
{
    lemma_map_stable(graph, larger, snapshot.range_map_root);
}

pub proof fn lemma_map_stable(graph: Graph, larger: Graph, root: NodeId)
    requires
        sound(graph),
        extends(graph, larger),
        graph.dom().contains(root),
    ensures
        map_bytes(larger, root) == map_bytes(graph, root),
        map_extents(larger, root) == map_extents(graph, root),
{
    assert(node_sound(graph, root));
    if let NodeView::RangeMap { level, children } = graph[root] {
        lemma_map_run(graph, level, children);
        if children.len() == 0 {
            lemma_run_stable(graph, larger, level, children, 0, 0);
        } else {
            lemma_run_stable(
                graph,
                larger,
                level,
                children,
                children[0].logical_start as int,
                children.last().logical_start + children.last().logical_len,
            );
        }
    }
}

/// Adding a node with nothing wrong under its own identifier keeps the graph sound.
pub proof fn lemma_insert_sound(graph: Graph, id: NodeId, node: NodeView)
    requires
        sound(graph),
        !graph.dom().contains(id),
        id@ == node.digest(),
        node.problem() is None,
        reference_problem(graph, node) is None,
        node matches NodeView::Snapshot(snapshot) ==> snapshot_problem(graph, snapshot) is None,
    ensures
        sound(graph.insert(id, node)),
        extends(graph, graph.insert(id, node)),
{
    let larger = graph.insert(id, node);
    assert(extends(graph, larger));
    assert forall|other: NodeId| #[trigger] larger.dom().contains(other) implies node_sound(
        larger,
        other,
    ) by {
        let here = larger[other];
        if other != id {
            assert(graph.dom().contains(other));
            assert(node_sound(graph, other));
        }
        lemma_reference_stable(graph, larger, here);
        if let NodeView::Snapshot(snapshot) = here {
            lemma_snapshot_stable(graph, larger, snapshot);
        }
    }
}

proof fn lemma_extents_prefix(
    graph: Graph,
    level: u8,
    entries: Seq<RangeMapEntry>,
    n: int,
)
    requires
        0 <= n <= entries.len(),
    ensures
        extents(graph, level, entries.take(n)) <= extents(graph, level, entries),
{
    lemma_run_concat(graph, level, entries.take(n), entries.skip(n));
    assert(entries.take(n) + entries.skip(n) =~= entries);
}

/// Extents of a prefix, one entry further, never exceed those of the whole.
pub proof fn lemma_extents_step(graph: Graph, level: u8, entries: Seq<RangeMapEntry>, n: int)
    requires
        0 <= n < entries.len(),
    ensures
        extents(graph, level, entries.take(n + 1)) == extents(graph, level, entries.take(n))
            + entry_extents(graph, level, entries[n]),
        run_bytes(graph, level, entries.take(n + 1)) == run_bytes(graph, level, entries.take(n))
            + entry_content(graph, level, entries[n]),
        leaves_of(graph, level, entries.take(n + 1)) == leaves_of(graph, level, entries.take(n))
            + entry_leaves(graph, level, entries[n]),
        extents(graph, level, entries.take(n + 1)) <= extents(graph, level, entries),
{
    lemma_extents_prefix(graph, level, entries, n + 1);
    assert(entries.take(n + 1).drop_last() =~= entries.take(n));
    lemma_run_step(graph, level, entries.take(n + 1));
}

/// The bytes of a run before entry `n` end where the entry starts.
#[verifier::spinoff_prover]
#[verifier::rlimit(40)]
pub proof fn lemma_run_prefix(
    graph: Graph,
    level: u8,
    entries: Seq<RangeMapEntry>,
    start: int,
    end: int,
    n: int,
)
    requires
        sound(graph),
        run_ok(graph, level, entries, start, end),
        0 <= n <= entries.len(),
    ensures
        n < entries.len() ==> entries[n].logical_start - start == run_bytes(
            graph,
            level,
            entries.take(n),
        ).len(),
        n < entries.len() ==> start <= entries[n].logical_start && entries[n].logical_start
            + entries[n].logical_len <= end,
        run_bytes(graph, level, entries.take(n)) == run_bytes(graph, level, entries).take(
            run_bytes(graph, level, entries.take(n)).len() as int,
        ),
        n < entries.len() ==> entry_content(graph, level, entries[n]) == run_bytes(
            graph,
            level,
            entries,
        ).subrange(
            entries[n].logical_start - start,
            entries[n].logical_start + entries[n].logical_len - start,
        ),
{
    let all = run_bytes(graph, level, entries);
    lemma_run_concat(graph, level, entries.take(n), entries.skip(n));
    assert(entries.take(n) + entries.skip(n) =~= entries);
    let front = run_bytes(graph, level, entries.take(n));
    assert(all.take(front.len() as int) =~= front);
    if n < entries.len() {
        let last = entries.len() as int;
        assert(entry_ok(graph, level, entries[n]));
        lemma_run_part(graph, level, entries, start, end, n, last);
        lemma_run_len(
            graph,
            level,
            entries.subrange(n, last),
            entries[n].logical_start as int,
            end,
        );
        if n > 0 {
            lemma_run_part(graph, level, entries, start, end, 0, n);
            assert(entries.subrange(0, n) =~= entries.take(n));
            lemma_run_len(
                graph,
                level,
                entries.take(n),
                start,
                entries[n].logical_start as int,
            );
        } else {
            assert(entries.take(n) =~= Seq::empty());
        }
        lemma_extents_step(graph, level, entries, n);
        lemma_entry_len(graph, level, entries[n]);
        lemma_run_concat(graph, level, entries.take(n + 1), entries.skip(n + 1));
        assert(entries.take(n + 1) + entries.skip(n + 1) =~= entries);
        let through = run_bytes(graph, level, entries.take(n + 1));
        assert(through.len() == entries[n].logical_start + entries[n].logical_len - start);
        assert(all =~= front + entry_content(graph, level, entries[n]) + run_bytes(
            graph,
            level,
            entries.skip(n + 1),
        ));
        assert(all.subrange(
            entries[n].logical_start - start,
            entries[n].logical_start + entries[n].logical_len - start,
        ) =~= entry_content(graph, level, entries[n]));
        assert(all.len() == end - start) by {
            lemma_run_len(graph, level, entries, start, end);
        }
        assert(through.len() <= all.len());
    }
}

/// The leaves of a run form a run of leaves over the same span with the same bytes.
pub proof fn lemma_leaves(
    graph: Graph,
    level: u8,
    entries: Seq<RangeMapEntry>,
    start: int,
    end: int,
)
    requires
        sound(graph),
        run_ok(graph, level, entries, start, end),
    ensures
        run_ok(graph, 0, leaves_of(graph, level, entries), start, end),
        run_bytes(graph, 0, leaves_of(graph, level, entries)) == run_bytes(
            graph,
            level,
            entries,
        ),
    decreases level, entries.len(),
{
    if entries.len() > 0 {
        let last = entries.last();
        assert(entry_ok(graph, level, entries[entries.len() - 1]));
        lemma_run_front(graph, level, entries, start, end);
        lemma_leaves(
            graph,
            level,
            entries.drop_last(),
            start,
            last.logical_start as int,
        );
        lemma_run_step(graph, level, entries);
        let front = leaves_of(graph, level, entries.drop_last());
        let back = entry_leaves(graph, level, last);
        match graph[last.child] {
            NodeView::RangeMap { level: below, children } => {
                assert(node_sound(graph, last.child));
                lemma_map_run(graph, below, children);
                lemma_leaves(
                    graph,
                    below,
                    children,
                    children[0].logical_start as int,
                    children.last().logical_start + children.last().logical_len,
                );
                lemma_run_len(
                    graph,
                    below,
                    children,
                    children[0].logical_start as int,
                    children.last().logical_start + children.last().logical_len,
                );
                assert(children[0].logical_start == last.logical_start);
                assert(children.last().logical_start + children.last().logical_len == end);
                assert(run_ok(graph, 0, back, last.logical_start as int, end));
            },
            _ => {
                assert(run_ok(
                    graph,
                    0,
                    back,
                    last.logical_start as int,
                    last.logical_start + last.logical_len,
                ));
                assert(back.drop_last() =~= Seq::empty());
                lemma_run_step(graph, 0, back);
                assert(run_bytes(graph, 0, back) =~= entry_content(graph, level, last));
            },
        }
        lemma_run_join(graph, 0, front, back, start, last.logical_start as int, end);
        lemma_run_concat(graph, 0, front, back);
    } else {
        assert(leaves_of(graph, level, entries) =~= Seq::empty());
        assert(run_bytes(graph, 0, leaves_of(graph, level, entries)) =~= run_bytes(
            graph,
            level,
            entries,
        ));
    }
}

/// Two runs that meet make one run.
pub proof fn lemma_run_join(
    graph: Graph,
    level: u8,
    a: Seq<RangeMapEntry>,
    b: Seq<RangeMapEntry>,
    start: int,
    middle: int,
    end: int,
)
    requires
        run_ok(graph, level, a, start, middle),
        run_ok(graph, level, b, middle, end),
    ensures
        run_ok(graph, level, a + b, start, end),
{
    let both = a + b;
    assert forall|i: int| 0 <= i < both.len() implies entry_ok(
        graph,
        level,
        #[trigger] both[i],
    ) by {
        if i < a.len() {
            assert(both[i] == a[i]);
        } else {
            assert(both[i] == b[i - a.len()]);
        }
    }
    assert forall|i: int, j: int|
        #![trigger both[i], both[j]]
        0 <= i && j == i + 1 && j < both.len() implies both[j].logical_start
        == both[i].logical_start + both[i].logical_len by {
        if j < a.len() {
            assert(both[i] == a[i] && both[j] == a[j]);
        } else if i >= a.len() {
            assert(both[i] == b[i - a.len()] && both[j] == b[j - a.len()]);
        } else {
            assert(both[i] == a.last() && both[j] == b[0]);
        }
    }
    if b.len() > 0 {
        assert(both.last() == b.last());
    } else {
        assert(both =~= a);
    }
    if a.len() > 0 {
        assert(both[0] == a[0]);
    } else {
        assert(both =~= b);
    }
}

} // verus!
