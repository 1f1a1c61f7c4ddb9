//! The content-addressed graph of file contents and its operation bindings.
use vstd::prelude::*;
use vstd::string::*;

use crate::bytes::{lemma_id_view, same_id, zero_bytes, zeros};
use crate::catalog::graph::{
    child_problem, entry_content, entry_extents, entry_ok, extends, extents, id_of,
    lemma_extents_step, lemma_id_of, lemma_insert_sound, lemma_map_run, lemma_run_len,
    lemma_run_prefix, map_bytes, node_sound, ref_problem, reference_problem, refs_of, run_bytes,
    run_ok, snapshot_problem, snapshot_shape_problem, sound, Graph,
};
use crate::catalog::ids::{CommitId, NodeId, OperationId};
use crate::catalog::node::{
    content_digest, content_id, map_span, same_node, span_of, validate_map_shape, DagError, Node,
    NodeKind, NodeView, RangeMapEntry, SnapshotNode, MAX_CHILDREN, MAX_LEVEL, MAX_LOGICAL_FILE_SIZE,
    MAX_SNAPSHOT_EXTENTS,
};
use crate::first::{first_some, lemma_first_at, lemma_first_clear, lemma_first_none};
use crate::hashing::{absorbed, hasher_finish, hasher_new, hasher_update};
use crate::table::Table;

verus! {

/// The largest file that is reconstructed as a whole.
pub const MAX_REFERENCE_RECONSTRUCT_BYTES: usize = 67_108_864;

/// The durable life of an operation's binding to a commit. A tombstone keeps the
/// operation's identity and receipt available while the commit is no longer held.
#[derive(Clone, Copy, Debug, PartialEq, Eq, Structural)]
pub enum DagOperationBindingState {
    Active,
    Tombstoned,
}

/// The commit that an operation is bound to.
#[derive(Clone, Copy, Debug, PartialEq, Eq)]
pub struct OperationBinding {
    pub commit_id: CommitId,
    pub state: DagOperationBindingState,
}

/// The nodes, and which operation committed which of them.
pub struct Dag {
    pub nodes: Table<NodeId, Node>,
    pub operation_commits: Table<OperationId, OperationBinding>,
}

/// What is wrong with walking a map from `start` on, if anything.
pub open spec fn walk_problem(
    graph: Graph,
    node: NodeView,
    start: u64,
    size: u64,
    counted: nat,
) -> Option<DagError> {
    match node {
        NodeView::RangeMap { level, children } => {
            let span = match span_of(children) {
                Some(span) => span,
                None => (start, 0u64),
            };
            if span.0 != start || span.0 + span.1 > size {
                Some(DagError::InvalidSnapshot("RangeMap span is invalid"))
            } else if counted + extents(graph, level, children) > MAX_SNAPSHOT_EXTENTS {
                Some(DagError::ResourceLimit("Snapshot extent count"))
            } else {
                None
            }
        },
        _ => Some(
            DagError::ReferenceKind { expected: NodeKind::RangeMap, actual: node.kind() },
        ),
    }
}

pub open spec fn node_bytes(graph: Graph, node: NodeView) -> Seq<u8> {
    match node {
        NodeView::RangeMap { level, children } => run_bytes(graph, level, children),
        _ => Seq::empty(),
    }
}

pub open spec fn node_extents(graph: Graph, node: NodeView) -> nat {
    match node {
        NodeView::RangeMap { level, children } => extents(graph, level, children),
        _ => 0,
    }
}

pub open spec fn node_level(node: NodeView) -> u8 {
    match node {
        NodeView::RangeMap { level, children } => level,
        _ => 0,
    }
}

/// The digest of the bytes under a range map that lies within `size` bytes, or why there is
/// none.
pub open spec fn digest_result(graph: Graph, root: NodeId, size: u64) -> Result<NodeId, DagError> {
    if !graph.dom().contains(root) {
        Err(DagError::MissingNode(root))
    } else {
        match walk_problem(graph, graph[root], 0, size, 0) {
            Some(error) => Err(error),
            None => Ok(content_id(map_bytes(graph, root))),
        }
    }
}

/// A node with an encoding and with nothing wrong with what it refers to.
pub open spec fn fits(graph: Graph, node: NodeView) -> bool {
    node.problem() is None && reference_problem(graph, node) is None
}

/// Why a node cannot be added, if it cannot.
pub open spec fn insert_problem(graph: Graph, node: NodeView) -> Option<DagError> {
    if node.problem() is Some {
        node.problem()
    } else if graph.dom().contains(id_of(node)) {
        if graph[id_of(node)] != node {
            Some(DagError::HashMismatch(id_of(node)))
        } else {
            None
        }
    } else if reference_problem(graph, node) is Some {
        reference_problem(graph, node)
    } else {
        match node {
            NodeView::Snapshot(snapshot) => snapshot_problem(graph, snapshot),
            _ => None,
        }
    }
}

pub proof fn lemma_span_order(graph: Graph, level: u8, children: Seq<RangeMapEntry>)
    requires
        sound(graph),
        fits(graph, NodeView::RangeMap { level, children }),
    ensures
        children.len() > 0 ==> run_ok(
            graph,
            level,
            children,
            children[0].logical_start as int,
            children.last().logical_start + children.last().logical_len,
        ) && children.last().logical_start + children.last().logical_len
            >= children[0].logical_start && children.last().logical_start
            + children.last().logical_len <= u64::MAX && span_of(children) is Some,
        children.len() == 0 ==> level == 0 && run_ok(graph, level, children, 0, 0),
        level <= MAX_LEVEL,
        children.len() <= MAX_CHILDREN,
{
    lemma_map_run(graph, level, children);
    if children.len() > 0 {
        lemma_run_len(
            graph,
            level,
            children,
            children[0].logical_start as int,
            children.last().logical_start + children.last().logical_len,
        );
        assert(entry_ok(graph, level, children[children.len() - 1]));
    }
}

/// The references of a node, with the kinds they must have.
pub fn node_refs(node: &Node) -> (refs: Vec<(NodeId, NodeKind)>)
    ensures
        refs@ == refs_of(node@),
{
    let mut refs: Vec<(NodeId, NodeKind)> = Vec::new();
    match node {
        Node::RangeMap(map) => {
            let mut i: usize = 0;
            while i < map.children.len()
                invariant
                    i <= map.children@.len(),
                    node@ == (NodeView::RangeMap { level: map.level, children: map.children@ }),
                    refs@ == refs_of(node@).take(i as int),
                decreases map.children@.len() - i,
            {
                refs.push((map.children[i].child, map.children[i].child_kind));
                i = i + 1;
                proof {
                    assert(refs@ =~= refs_of(node@).take(i as int));
                }
            }
        },
        Node::Snapshot(snapshot) => {
            refs.push((snapshot.range_map_root, NodeKind::RangeMap));
        },
        Node::Commit(commit) => {
            refs.push((commit.snapshot, NodeKind::Snapshot));
            if let Some(parent) = commit.parent {
                refs.push((parent, NodeKind::Commit));
            }
        },
        _ => {},
    }
    proof {
        assert(refs@ =~= refs_of(node@));
    }
    refs
}

impl Dag {
    /// The nodes as mathematical values.
    pub open spec fn graph(&self) -> Graph {
        Map::new(|id: NodeId| self.nodes@.dom().contains(id), |id: NodeId| self.nodes@[id]@)
    }

    /// The operation bindings.
    pub open spec fn bindings(&self) -> Map<OperationId, OperationBinding> {
        self.operation_commits@
    }

    /// The graph's invariant.
    pub open spec fn wf(&self) -> bool {
        sound(self.graph())
    }

    pub fn new() -> (dag: Self)
        ensures
            dag.wf(),
            dag.graph() == Map::<NodeId, NodeView>::empty(),
            dag.bindings() == Map::<OperationId, OperationBinding>::empty(),
    {
        let dag = Dag { nodes: Table::new(), operation_commits: Table::new() };
        proof {
            assert(dag.graph() =~= Map::<NodeId, NodeView>::empty());
        }
        dag
    }

    /// Adds a node, unless it is there already.
    pub fn insert(&mut self, node: Node) -> (r: Result<NodeId, DagError>)
        requires
            old(self).wf(),
        ensures
            final(self).wf(),
            extends(old(self).graph(), final(self).graph()),
            final(self).bindings() == old(self).bindings(),
            node@.problem() is None ==> id_of(node@)@ == node@.digest(),
            match insert_problem(old(self).graph(), node@) {
                Some(error) => r == Err::<NodeId, DagError>(error) && final(self).graph() == old(
                    self,
                ).graph(),
                None => r == Ok::<NodeId, DagError>(id_of(node@)) && id_of(node@)@
                    == node@.digest() && final(self).graph() == old(self).graph().insert(
                    id_of(node@),
                    node@,
                ),
            },
    {
        let id = match node.id() {
            Ok(id) => id,
            Err(error) => {
                return Err(error);
            },
        };
        proof {
            lemma_id_of(id, node@);
        }
        if let Some(existing) = self.nodes.get(&id) {
            if !same_node(existing, &node) {
                return Err(DagError::HashMismatch(id));
            }
            proof {
                assert(self.graph().insert(id, node@) =~= self.graph());
            }
            return Ok(id);
        }
        match self.validate_references(&node) {
            Ok(()) => {},
            Err(error) => {
                return Err(error);
            },
        }
        if let Node::Snapshot(snapshot) = &node {
            match self.validate_snapshot(snapshot) {
                Ok(()) => {},
                Err(error) => {
                    return Err(error);
                },
            }
        }
        let ghost before = self.graph();
        let ghost added = node@;
        self.nodes.insert(id, node);
        proof {
            lemma_insert_sound(before, id, added);
            assert(self.graph() =~= before.insert(id, added));
        }
        Ok(id)
    }

    pub fn get(&self, id: &NodeId) -> (node: Option<&Node>)
        ensures
            match node {
                Some(n) => self.graph().dom().contains(*id) && n@ == self.graph()[*id],
                None => !self.graph().dom().contains(*id),
            },
    {
        self.nodes.get(id)
    }

    /// Checks what an entry of a map at `level` says of its child.
    fn check_child(&self, level: u8, entry: &RangeMapEntry) -> (r: Result<(), DagError>)
        requires
            self.wf(),
            self.graph().dom().contains(entry.child),
        ensures
            match child_problem(self.graph(), level, *entry) {
                Some(error) => r == Err::<(), DagError>(error),
                None => r is Ok,
            },
    {
        let child = match self.nodes.get(&entry.child) {
            Some(child) => child,
            None => {
                return Err(DagError::MissingNode(entry.child));
            },
        };
        proof {
            assert(node_sound(self.graph(), entry.child));
        }
        match child {
            Node::Content(content) => {
                if level != 0 {
                    return Err(
                        DagError::InvalidSnapshot("RangeMap child level or kind mismatch"),
                    );
                }
                match entry.content_offset.checked_add(entry.logical_len) {
                    Some(end) => {
                        if end > content.bytes.len() as u64 {
                            return Err(
                                DagError::InvalidSnapshot("Content range exceeds node length"),
                            );
                        }
                    },
                    None => {
                        return Err(DagError::ArithmeticOverflow);
                    },
                }
            },
            Node::ZeroRun(run) => {
                if level != 0 {
                    return Err(
                        DagError::InvalidSnapshot("RangeMap child level or kind mismatch"),
                    );
                }
                if run.len != entry.logical_len {
                    return Err(DagError::InvalidSnapshot("ZeroRun length mismatch"));
                }
            },
            Node::RangeMap(child_map) => {
                proof {
                    lemma_span_order(self.graph(), child_map.level, child_map.children@);
                }
                if level == 0 || child_map.level + 1 != level {
                    return Err(
                        DagError::InvalidSnapshot("RangeMap child level or kind mismatch"),
                    );
                }
                let matches_entry = match map_span(child_map) {
                    Some((start, len)) => start == entry.logical_start && len
                        == entry.logical_len,
                    None => false,
                };
                if !matches_entry {
                    return Err(DagError::InvalidSnapshot("child RangeMap span mismatch"));
                }
            },
            _ => {
                return Err(DagError::InvalidSnapshot("RangeMap child level or kind mismatch"));
            },
        }
        Ok(())
    }

    fn validate_references(&self, node: &Node) -> (r: Result<(), DagError>)
        requires
            self.wf(),
        ensures
            match reference_problem(self.graph(), node@) {
                Some(error) => r == Err::<(), DagError>(error),
                None => r is Ok,
            },
    {
        let ghost graph = self.graph();
        let refs = node_refs(node);
        let ghost direct = |i: int| ref_problem(graph, refs_of(node@)[i]);
        let mut i: usize = 0;
        while i < refs.len()
            invariant
                i <= refs@.len(),
                graph == self.graph(),
                refs@ == refs_of(node@),
                direct == (|i: int| ref_problem(graph, refs_of(node@)[i])),
                forall|j: int| 0 <= j < i ==> #[trigger] direct(j) is None,
            decreases refs@.len() - i,
        {
            let (id, expected) = refs[i];
            match self.nodes.get(&id) {
                Some(child) => {
                    let actual = child.kind();
                    if actual != expected {
                        proof {
                            assert(direct(i as int) is Some);
                            lemma_first_at(direct, 0, i as int, refs@.len() as int);
                        }
                        return Err(DagError::ReferenceKind { expected, actual });
                    }
                },
                None => {
                    proof {
                        assert(direct(i as int) is Some);
                        lemma_first_at(direct, 0, i as int, refs@.len() as int);
                    }
                    return Err(DagError::MissingNode(id));
                },
            }
            i = i + 1;
        }
        proof {
            lemma_first_clear(direct, 0, refs@.len() as int);
        }
        if let Node::RangeMap(map) = node {
            let ghost deep = |i: int| child_problem(graph, map.level, map.children@[i]);
            let mut i: usize = 0;
            while i < map.children.len()
                invariant
                    i <= map.children@.len(),
                    self.wf(),
                    graph == self.graph(),
                    node@ == (NodeView::RangeMap { level: map.level, children: map.children@ }),
                    refs@ == refs_of(node@),
                    direct == (|i: int| ref_problem(graph, refs_of(node@)[i])),
                    first_some(direct, 0, refs@.len() as int) is None,
                    deep == (|i: int| child_problem(graph, map.level, map.children@[i])),
                    forall|j: int| 0 <= j < i ==> #[trigger] deep(j) is None,
                decreases map.children@.len() - i,
            {
                proof {
                    lemma_first_none(direct, 0, refs@.len() as int, i as int);
                    assert(direct(i as int) is None);
                    assert(refs@[i as int] == (
                        map.children@[i as int].child,
                        map.children@[i as int].child_kind,
                    ));
                }
                match self.check_child(map.level, &map.children[i]) {
                    Ok(()) => {},
                    Err(error) => {
                        proof {
                            assert(deep(i as int) is Some);
                            lemma_first_at(deep, 0, i as int, map.children@.len() as int);
                        }
                        return Err(error);
                    },
                }
                proof {
                    assert(deep(i as int) is None);
                }
                i = i + 1;
            }
            proof {
                lemma_first_clear(deep, 0, map.children@.len() as int);
            }
        }
        Ok(())
    }

    pub(crate) fn validate_snapshot_shape(&self, snapshot: &SnapshotNode) -> (r: Result<(), DagError>)
        requires
            self.wf(),
        ensures
            match snapshot_shape_problem(self.graph(), *snapshot) {
                Some(error) => r == Err::<(), DagError>(error),
                None => r is Ok,
            },
    {
        if snapshot.logical_size > MAX_LOGICAL_FILE_SIZE {
            return Err(DagError::ResourceLimit("Snapshot logical size"));
        }
        let root = match self.nodes.get(&snapshot.range_map_root) {
            Some(root) => root,
            None => {
                return Err(DagError::MissingNode(snapshot.range_map_root));
            },
        };
        let root_map = match root {
            Node::RangeMap(map) => map,
            _ => {
                return Err(
                    DagError::ReferenceKind { expected: NodeKind::RangeMap, actual: root.kind() },
                );
            },
        };
        proof {
            assert(node_sound(self.graph(), snapshot.range_map_root));
            lemma_span_order(self.graph(), root_map.level, root_map.children@);
        }
        match validate_map_shape(root_map) {
            Ok(()) => {},
            Err(error) => {
                return Err(error);
            },
        }
        if snapshot.logical_size == 0 {
            if root_map.level != 0 || !root_map.children.is_empty() {
                return Err(DagError::InvalidSnapshot("non-canonical empty root"));
            }
        } else {
            let covers = match map_span(root_map) {
                Some((start, len)) => start == 0 && len == snapshot.logical_size,
                None => false,
            };
            if !covers {
                return Err(DagError::InvalidSnapshot("root does not cover Snapshot"));
            }
        }
        Ok(())
    }

    pub(crate) fn validate_snapshot(&self, snapshot: &SnapshotNode) -> (r: Result<(), DagError>)
        requires
            self.wf(),
        ensures
            match snapshot_problem(self.graph(), *snapshot) {
                Some(error) => r == Err::<(), DagError>(error),
                None => r is Ok,
            },
    {
        match self.validate_snapshot_shape(snapshot) {
            Ok(()) => {},
            Err(error) => {
                return Err(error);
            },
        }
        let digest = match self.digest_range_map(snapshot.range_map_root, snapshot.logical_size) {
            Ok(digest) => digest,
            Err(error) => {
                return Err(error);
            },
        };
        if !same_id(&digest, &snapshot.content_digest) {
            proof {
                if digest@ == snapshot.content_digest@ {
                    lemma_id_view(digest, snapshot.content_digest);
                }
            }
            return Err(DagError::InvalidSnapshot("content digest mismatch"));
        }
        Ok(())
    }

    /// The digest of the logical bytes under a range map.
    pub fn digest_range_map(&self, root: NodeId, logical_size: u64) -> (r: Result<
        NodeId,
        DagError,
    >)
        requires
            self.wf(),
        ensures
            r == digest_result(self.graph(), root, logical_size),
    {
        let node = match self.nodes.get(&root) {
            Some(node) => node,
            None => {
                return Err(DagError::MissingNode(root));
            },
        };
        proof {
            assert(self.graph().dom().contains(root));
            assert(node_sound(self.graph(), root));
        }
        let mut hasher = hasher_new();
        hasher_update(&mut hasher, "cairn/logical-bytes/v1".as_bytes());
        proof {
            assert(absorbed(hasher) =~= "cairn/logical-bytes/v1".spec_bytes());
        }
        let mut count: usize = 0;
        match self.hash_map(node, 0, logical_size, &mut hasher, &mut count) {
            Ok(()) => Ok(hasher_finish(&hasher)),
            Err(error) => Err(error),
        }
    }

    /// Feeds the logical bytes under a range map to a hasher, counting leaves.
    fn hash_map(
        &self,
        node: &Node,
        expected_start: u64,
        logical_size: u64,
        hasher: &mut blake3::Hasher,
        count: &mut usize,
    ) -> (r: Result<(), DagError>)
        requires
            self.wf(),
            fits(self.graph(), node@),
            *old(count) <= MAX_SNAPSHOT_EXTENTS,
        ensures
            match walk_problem(
                self.graph(),
                node@,
                expected_start,
                logical_size,
                *old(count) as nat,
            ) {
                Some(error) => r == Err::<(), DagError>(error),
                None => r is Ok && absorbed(*final(hasher)) == absorbed(*old(hasher))
                    + node_bytes(self.graph(), node@) && *final(count) == *old(count)
                    + node_extents(self.graph(), node@),
            },
        decreases node_level(node@), 1int,
    {
        let ghost graph = self.graph();
        let map = match node {
            Node::RangeMap(map) => map,
            _ => {
                return Err(
                    DagError::ReferenceKind { expected: NodeKind::RangeMap, actual: node.kind() },
                );
            },
        };
        proof {
            lemma_span_order(graph, map.level, map.children@);
        }
        let (start, len) = match map_span(map) {
            Some(span) => span,
            None => (expected_start, 0),
        };
        match start.checked_add(len) {
            Some(end) => {
                if start != expected_start || end > logical_size {
                    return Err(DagError::InvalidSnapshot("RangeMap span is invalid"));
                }
            },
            None => {
                return Err(DagError::InvalidSnapshot("RangeMap span is invalid"));
            },
        }
        let ghost level = map.level;
        let ghost children = map.children@;
        let mut i: usize = 0;
        proof {
            assert(children.take(0) =~= Seq::empty());
            assert(absorbed(*hasher) + run_bytes(graph, level, children.take(0)) =~= absorbed(
                *hasher,
            ));
        }
        while i < map.children.len()
            invariant
                i <= map.children@.len(),
                graph == self.graph(),
                self.wf(),
                level == map.level,
                children == map.children@,
                node@ == (NodeView::RangeMap { level, children }),
                children.len() > 0 ==> run_ok(
                    graph,
                    level,
                    children,
                    children[0].logical_start as int,
                    children.last().logical_start + children.last().logical_len,
                ),
                children.len() > 0 ==> children.last().logical_start
                    + children.last().logical_len <= logical_size,
                walk_problem(graph, node@, expected_start, logical_size, *old(count) as nat)
                    == if *old(count) + extents(graph, level, children) > MAX_SNAPSHOT_EXTENTS {
                    Some(DagError::ResourceLimit("Snapshot extent count"))
                } else {
                    None
                },
                *count <= MAX_SNAPSHOT_EXTENTS,
                *count == *old(count) + extents(graph, level, children.take(i as int)),
                absorbed(*hasher) == absorbed(*old(hasher)) + run_bytes(
                    graph,
                    level,
                    children.take(i as int),
                ),
            decreases map.children@.len() - i,
        {
            proof {
                assert(entry_ok(graph, level, children[i as int]));
                lemma_extents_step(graph, level, children, i as int);
                lemma_run_prefix(
                    graph,
                    level,
                    children,
                    children[0].logical_start as int,
                    children.last().logical_start + children.last().logical_len,
                    i as int,
                );
            }
            match self.hash_entry(map.level, &map.children[i], logical_size, hasher, count) {
                Ok(()) => {},
                Err(error) => {
                    return Err(error);
                },
            }
            i = i + 1;
            proof {
                assert(absorbed(*hasher) =~= absorbed(*old(hasher)) + run_bytes(
                    graph,
                    level,
                    children.take(i as int),
                ));
            }
        }
        proof {
            assert(children.take(i as int) =~= children);
        }
        Ok(())
    }

    /// Feeds the logical bytes of one entry to a hasher, counting leaves.
    fn hash_entry(
        &self,
        level: u8,
        entry: &RangeMapEntry,
        logical_size: u64,
        hasher: &mut blake3::Hasher,
        count: &mut usize,
    ) -> (r: Result<(), DagError>)
        requires
            self.wf(),
            entry_ok(self.graph(), level, *entry),
            entry.logical_start + entry.logical_len <= logical_size,
            *old(count) <= MAX_SNAPSHOT_EXTENTS,
        ensures
            if *old(count) + entry_extents(self.graph(), level, *entry) > MAX_SNAPSHOT_EXTENTS {
                r == Err::<(), DagError>(DagError::ResourceLimit("Snapshot extent count"))
            } else {
                r is Ok && absorbed(*final(hasher)) == absorbed(*old(hasher)) + entry_content(
                    self.graph(),
                    level,
                    *entry,
                ) && *final(count) == *old(count) + entry_extents(self.graph(), level, *entry)
            },
        decreases level, 0int,
    {
        let ghost graph = self.graph();
        proof {
            assert(graph.dom().contains(entry.child));
            assert(node_sound(graph, entry.child));
        }
        let child = match self.nodes.get(&entry.child) {
            Some(child) => child,
            None => {
                return Err(DagError::MissingNode(entry.child));
            },
        };
        match child {
            Node::Content(content) => {
                if *count >= MAX_SNAPSHOT_EXTENTS {
                    return Err(DagError::ResourceLimit("Snapshot extent count"));
                }
                *count = *count + 1;
                let total: usize = content.bytes.len();
                let from: usize = entry.content_offset as usize;
                let to: usize = from + entry.logical_len as usize;
                let part = vstd::slice::slice_subrange(content.bytes.as_slice(), from, to);
                hasher_update(hasher, part);
                Ok(())
            },
            Node::ZeroRun(run) => {
                if *count >= MAX_SNAPSHOT_EXTENTS {
                    return Err(DagError::ResourceLimit("Snapshot extent count"));
                }
                *count = *count + 1;
                hash_zeros(hasher, run.len);
                Ok(())
            },
            Node::RangeMap(child_map) => {
                proof {
                    lemma_span_order(graph, child_map.level, child_map.children@);
                }
                self.hash_map(child, entry.logical_start, logical_size, hasher, count)
            },
            _ => Err(DagError::InvalidSnapshot("invalid RangeMap child")),
        }
    }
}

/// Feeds `len` zero bytes to a hasher.
fn hash_zeros(hasher: &mut blake3::Hasher, len: u64)
    ensures
        absorbed(*final(hasher)) == absorbed(*old(hasher)) + zeros(len as nat),
{
    let block = zero_bytes(8192);
    let ghost start = absorbed(*hasher);
    let mut remaining: u64 = len;
    proof {
        assert(start + zeros(0) =~= start);
    }
    while remaining != 0
        invariant
            remaining <= len,
            block@ == zeros(8192),
            absorbed(*hasher) == start + zeros((len - remaining) as nat),
        decreases remaining,
    {
        let count: usize = if remaining < 8192 {
            remaining as usize
        } else {
            8192
        };
        let part = vstd::slice::slice_subrange(block.as_slice(), 0, count);
        hasher_update(hasher, part);
        proof {
            assert(part@ =~= zeros(count as nat));
            assert(start + zeros((len - remaining) as nat) + zeros(count as nat) =~= start + zeros(
                (len - remaining + count) as nat,
            ));
        }
        remaining = remaining - count as u64;
    }
}

} // verus!
