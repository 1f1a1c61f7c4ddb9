//! Reading file contents out of the graph.
use vstd::prelude::*;
use std::ops::Range;

use crate::bytes::{
    copy_into, fill_zeros, push_all, push_range, same_id, splice, zero_bytes, lemma_id_view,
};
use crate::catalog::dag::{
    fits, lemma_span_order, node_bytes, node_level, Dag, MAX_REFERENCE_RECONSTRUCT_BYTES,
};
use crate::catalog::graph::{
    entry_content, entry_ok, lemma_entry_len, lemma_extents_step, lemma_run_len,
    lemma_run_prefix, map_bytes, node_sound, run_bytes, run_ok, snapshot_problem,
    snapshot_shape_problem, sound, Graph,
};
use crate::catalog::ids::NodeId;
use crate::catalog::node::{
    content_digest, map_span, span_of, DagError, Node, NodeKind, NodeView, RangeMapEntry,
    SnapshotNode,
};

verus! {

pub open spec fn later(a: int, b: int) -> int {
    if a >= b {
        a
    } else {
        b
    }
}

pub open spec fn earlier(a: int, b: int) -> int {
    if a <= b {
        a
    } else {
        b
    }
}

/// How many bytes the ranges have in common.
pub open spec fn shared(start: int, end: int, from: int, to: int) -> int {
    later(0, earlier(end, to) - later(start, from))
}

/// `after` is `before`, which stands for the range from `from` to `to`, with the
/// bytes of the run from `start` to `end` filled in.
pub open spec fn filled(
    before: Seq<u8>,
    after: Seq<u8>,
    bytes: Seq<u8>,
    start: int,
    end: int,
    from: int,
    to: int,
) -> bool {
    &&& after.len() == before.len()
    &&& forall|p: int|
        0 <= p < after.len() ==> #[trigger] after[p] == if start <= from + p < end && from + p
            < to {
            bytes[from + p - start]
        } else {
            before[p]
        }
}

/// The snapshot with the given identifier, where there is one.
pub open spec fn snapshot_at(graph: Graph, id: NodeId) -> Option<SnapshotNode> {
    if graph.dom().contains(id) {
        match graph[id] {
            NodeView::Snapshot(snapshot) => Some(snapshot),
            _ => None,
        }
    } else {
        None
    }
}

/// The logical bytes of a snapshot.
pub open spec fn snapshot_bytes(graph: Graph, snapshot: SnapshotNode) -> Seq<u8> {
    map_bytes(graph, snapshot.range_map_root)
}

/// A sound snapshot has as many bytes as it says.
pub proof fn lemma_snapshot_len(graph: Graph, snapshot: SnapshotNode)
    requires
        sound(graph),
        snapshot_shape_problem(graph, snapshot) is None,
    ensures
        snapshot_bytes(graph, snapshot).len() == snapshot.logical_size,
        graph.dom().contains(snapshot.range_map_root),
        graph[snapshot.range_map_root] matches NodeView::RangeMap { level, children } && fits(
            graph,
            graph[snapshot.range_map_root],
        ) && (children.len() > 0 ==> span_of(children) == Some((0u64, snapshot.logical_size))
            && run_ok(graph, level, children, 0, snapshot.logical_size as int)) && (
        children.len() == 0 ==> snapshot.logical_size == 0 && run_ok(
            graph,
            level,
            children,
            0,
            0,
        )),
{
    let root = snapshot.range_map_root;
    assert(graph.dom().contains(root));
    assert(node_sound(graph, root));
    if let NodeView::RangeMap { level, children } = graph[root] {
        lemma_span_order(graph, level, children);
        if children.len() > 0 {
            assert(span_of(children) == Some((0u64, snapshot.logical_size)));
            lemma_run_len(graph, level, children, 0, snapshot.logical_size as int);
        } else {
            lemma_run_len(graph, level, children, 0, 0);
        }
    }
}

impl Dag {
    /// The whole contents of a snapshot.
    pub fn reconstruct(&self, snapshot: &SnapshotNode) -> (r: Result<Vec<u8>, DagError>)
        requires
            self.wf(),
        ensures
            match snapshot_problem(self.graph(), *snapshot) {
                Some(error) => r == Err::<Vec<u8>, DagError>(error),
                None => if snapshot.logical_size > usize::MAX {
                    r == Err::<Vec<u8>, DagError>(DagError::ArithmeticOverflow)
                } else if snapshot.logical_size > MAX_REFERENCE_RECONSTRUCT_BYTES {
                    r == Err::<Vec<u8>, DagError>(
                        DagError::ResourceLimit("reference reconstruction output"),
                    )
                } else {
                    r is Ok && r->Ok_0@ == snapshot_bytes(self.graph(), *snapshot)
                },
            },
    {
        match self.validate_snapshot(snapshot) {
            Ok(()) => {},
            Err(error) => {
                return Err(error);
            },
        }
        if snapshot.logical_size > usize::MAX as u64 {
            return Err(DagError::ArithmeticOverflow);
        }
        let size: usize = snapshot.logical_size as usize;
        if size > MAX_REFERENCE_RECONSTRUCT_BYTES {
            return Err(DagError::ResourceLimit("reference reconstruction output"));
        }
        proof {
            lemma_snapshot_len(self.graph(), *snapshot);
            assert(node_sound(self.graph(), snapshot.range_map_root));
        }
        let root = match self.nodes.get(&snapshot.range_map_root) {
            Some(root) => root,
            None => {
                return Err(DagError::MissingNode(snapshot.range_map_root));
            },
        };
        let root_id = match root.id() {
            Ok(id) => id,
            Err(error) => {
                return Err(error);
            },
        };
        proof {
            lemma_id_view(root_id, snapshot.range_map_root);
        }
        if !same_id(&root_id, &snapshot.range_map_root) {
            return Err(DagError::HashMismatch(snapshot.range_map_root));
        }
        let mut output: Vec<u8> = Vec::new();
        match self.reconstruct_map(root, 0, snapshot.logical_size, &mut output) {
            Ok(()) => {},
            Err(error) => {
                return Err(error);
            },
        }
        proof {
            assert(output@ =~= snapshot_bytes(self.graph(), *snapshot));
        }
        let digest = content_digest(output.as_slice());
        proof {
            lemma_id_view(digest, snapshot.content_digest);
        }
        if output.len() as u64 != snapshot.logical_size || !same_id(
            &digest,
            &snapshot.content_digest,
        ) {
            return Err(DagError::InvalidSnapshot("logical size or content digest mismatch"));
        }
        Ok(output)
    }

    /// Appends the logical bytes under a range map.
    fn reconstruct_map(
        &self,
        node: &Node,
        expected_start: u64,
        logical_size: u64,
        out: &mut Vec<u8>,
    ) -> (r: Result<(), DagError>)
        requires
            self.wf(),
            fits(self.graph(), node@),
            logical_size <= MAX_REFERENCE_RECONSTRUCT_BYTES,
            node@ matches NodeView::RangeMap { level, children } && (children.len() > 0
                ==> children[0].logical_start == expected_start && children.last().logical_start
                + children.last().logical_len <= logical_size),
        ensures
            r is Ok,
            final(out)@ == old(out)@ + node_bytes(self.graph(), node@),
        decreases node_level(node@), 1int,
    {
        let ghost graph = self.graph();
        let map = match node {
            Node::RangeMap(map) => map,
            _ => {
                return Err(
                    DagError::ReferenceKind { expected: NodeKind::RangeMap, actual: node.kind() },
                );
            },
        };
        let ghost level = map.level;
        let ghost children = map.children@;
        proof {
            lemma_span_order(graph, level, children);
            assert(children.take(0) =~= Seq::empty());
            assert(out@ + run_bytes(graph, level, children.take(0)) =~= out@);
        }
        let mut i: usize = 0;
        while i < map.children.len()
            invariant
                i <= map.children@.len(),
                graph == self.graph(),
                self.wf(),
                level == map.level,
                children == map.children@,
                node@ == (NodeView::RangeMap { level, children }),
                logical_size <= MAX_REFERENCE_RECONSTRUCT_BYTES,
                children.len() > 0 ==> run_ok(
                    graph,
                    level,
                    children,
                    children[0].logical_start as int,
                    children.last().logical_start + children.last().logical_len,
                ) && children.last().logical_start + children.last().logical_len
                    <= logical_size,
                out@ == old(out)@ + run_bytes(graph, level, children.take(i as int)),
            decreases map.children@.len() - i,
        {
            proof {
                assert(entry_ok(graph, level, children[i as int]));
                lemma_extents_step(graph, level, children, i as int);
                lemma_run_prefix(
                    graph,
                    level,
                    children,
                    children[0].logical_start as int,
                    children.last().logical_start + children.last().logical_len,
                    i as int,
                );
            }
            match self.reconstruct_entry(map.level, &map.children[i], logical_size, out) {
                Ok(()) => {},
                Err(error) => {
                    return Err(error);
                },
            }
            i = i + 1;
            proof {
                assert(out@ =~= old(out)@ + run_bytes(graph, level, children.take(i as int)));
            }
        }
        proof {
            assert(children.take(i as int) =~= children);
        }
        Ok(())
    }

    /// Appends the logical bytes of one entry.
    fn reconstruct_entry(
        &self,
        level: u8,
        entry: &RangeMapEntry,
        logical_size: u64,
        out: &mut Vec<u8>,
    ) -> (r: Result<(), DagError>)
        requires
            self.wf(),
            entry_ok(self.graph(), level, *entry),
            logical_size <= MAX_REFERENCE_RECONSTRUCT_BYTES,
            entry.logical_start + entry.logical_len <= logical_size,
        ensures
            r is Ok,
            final(out)@ == old(out)@ + entry_content(self.graph(), level, *entry),
        decreases level, 0int,
    {
        let ghost graph = self.graph();
        proof {
            assert(graph.dom().contains(entry.child));
            assert(node_sound(graph, entry.child));
        }
        let child = match self.nodes.get(&entry.child) {
            Some(child) => child,
            None => {
                return Err(DagError::MissingNode(entry.child));
            },
        };
        match child {
            Node::ZeroRun(run) => {
                let run = zero_bytes(run.len as usize);
                push_all(out, run.as_slice());
                Ok(())
            },
            Node::Content(content) => {
                let total: usize = content.bytes.len();
                let from: usize = entry.content_offset as usize;
                push_range(
                    out,
                    content.bytes.as_slice(),
                    from,
                    from + entry.logical_len as usize,
                );
                Ok(())
            },
            Node::RangeMap(child_map) => {
                proof {
                    lemma_span_order(graph, child_map.level, child_map.children@);
                }
                self.reconstruct_map(child, entry.logical_start, logical_size, out)
            },
            _ => Err(
                DagError::ReferenceKind { expected: NodeKind::RangeMap, actual: child.kind() },
            ),
        }
    }

    /// Copies one logical range of a snapshot into `output`. Nothing as large as
    /// the file is allocated.
    pub fn reconstruct_range(
        &self,
        snapshot_id: NodeId,
        range: Range<u64>,
        output: &mut [u8],
    ) -> (r: Result<usize, DagError>)
        requires
            self.wf(),
        ensures
            match snapshot_at(self.graph(), snapshot_id) {
                None => r == Err::<usize, DagError>(
                    if self.graph().dom().contains(snapshot_id) {
                        DagError::InvalidReference(snapshot_id)
                    } else {
                        DagError::MissingNode(snapshot_id)
                    },
                ) && final(output)@ == old(output)@,
                Some(snapshot) => if range.start > range.end || range.end
                    > snapshot.logical_size {
                    r == Err::<usize, DagError>(
                        DagError::InvalidSnapshot("range outside Snapshot"),
                    ) && final(output)@ == old(output)@
                } else if range.end - range.start > usize::MAX {
                    r == Err::<usize, DagError>(DagError::ArithmeticOverflow) && final(output)@
                        == old(output)@
                } else if old(output)@.len() < range.end - range.start {
                    r == Err::<usize, DagError>(DagError::ResourceLimit("range output buffer"))
                        && final(output)@ == old(output)@
                } else {
                    r == Ok::<usize, DagError>((range.end - range.start) as usize)
                        && final(output)@ == splice(
                        old(output)@,
                        0,
                        snapshot_bytes(self.graph(), snapshot).subrange(
                            range.start as int,
                            range.end as int,
                        ),
                    )
                },
            },
    {
        let ghost graph = self.graph();
        let snapshot = match self.nodes.get(&snapshot_id) {
            Some(Node::Snapshot(snapshot)) => *snapshot,
            Some(_) => {
                return Err(DagError::InvalidReference(snapshot_id));
            },
            None => {
                return Err(DagError::MissingNode(snapshot_id));
            },
        };
        proof {
            assert(graph.dom().contains(snapshot_id));
            assert(node_sound(graph, snapshot_id));
            lemma_snapshot_len(graph, snapshot);
        }
        match self.validate_snapshot_shape(&snapshot) {
            Ok(()) => {},
            Err(error) => {
                return Err(error);
            },
        }
        let own_id = match Node::Snapshot(snapshot).id() {
            Ok(id) => id,
            Err(error) => {
                return Err(error);
            },
        };
        proof {
            lemma_id_view(own_id, snapshot_id);
        }
        if !same_id(&own_id, &snapshot_id) {
            return Err(DagError::HashMismatch(snapshot_id));
        }
        if range.start > range.end || range.end > snapshot.logical_size {
            return Err(DagError::InvalidSnapshot("range outside Snapshot"));
        }
        if range.end - range.start > usize::MAX as u64 {
            return Err(DagError::ArithmeticOverflow);
        }
        let length: usize = (range.end - range.start) as usize;
        if output.len() < length {
            return Err(DagError::ResourceLimit("range output buffer"));
        }
        if length == 0 {
            proof {
                assert(splice(
                    output@,
                    0,
                    snapshot_bytes(graph, snapshot).subrange(
                        range.start as int,
                        range.end as int,
                    ),
                ) =~= output@);
            }
            return Ok(0);
        }
        let root = match self.nodes.get(&snapshot.range_map_root) {
            Some(root) => root,
            None => {
                return Err(DagError::MissingNode(snapshot.range_map_root));
            },
        };
        let mut written: usize = 0;
        match self.reconstruct_map_range(
            root,
            0,
            snapshot.logical_size,
            range.start,
            range.end,
            output,
            &mut written,
        ) {
            Ok(()) => {},
            Err(error) => {
                return Err(error);
            },
        }
        if written != length {
            return Err(DagError::InvalidSnapshot("range coverage mismatch"));
        }
        proof {
            assert(output@ =~= splice(
                old(output)@,
                0,
                snapshot_bytes(graph, snapshot).subrange(range.start as int, range.end as int),
            ));
        }
        Ok(written)
    }

    /// Copies what a map from `expected_start` to `expected_end` has of the range
    /// from `from` to `to` into `output`, which stands for that range.
    fn reconstruct_map_range(
        &self,
        node: &Node,
        expected_start: u64,
        expected_end: u64,
        from: u64,
        to: u64,
        output: &mut [u8],
        written: &mut usize,
    ) -> (r: Result<(), DagError>)
        requires
            self.wf(),
            fits(self.graph(), node@),
            expected_start <= expected_end,
            from <= to,
            to - from <= old(output)@.len(),
            *old(written) + shared(
                expected_start as int,
                expected_end as int,
                from as int,
                to as int,
            ) <= old(output)@.len(),
        ensures
            match node@ {
                NodeView::RangeMap { level, children } => if span_of(children) != Some(
                    (expected_start, (expected_end - expected_start) as u64),
                ) {
                    r == Err::<(), DagError>(
                        DagError::InvalidSnapshot("RangeMap span is invalid"),
                    )
                } else {
                    r is Ok && filled(
                        old(output)@,
                        final(output)@,
                        run_bytes(self.graph(), level, children),
                        expected_start as int,
                        expected_end as int,
                        from as int,
                        to as int,
                    ) && *final(written) == *old(written) + shared(
                        expected_start as int,
                        expected_end as int,
                        from as int,
                        to as int,
                    )
                },
                _ => r == Err::<(), DagError>(
                    DagError::ReferenceKind {
                        expected: NodeKind::RangeMap,
                        actual: node@.kind(),
                    },
                ),
            },
            final(output)@.len() == old(output)@.len(),
        decreases node_level(node@), 1int,
    {
        let ghost graph = self.graph();
        let map = match node {
            Node::RangeMap(map) => map,
            _ => {
                return Err(
                    DagError::ReferenceKind { expected: NodeKind::RangeMap, actual: node.kind() },
                );
            },
        };
        let ghost level = map.level;
        let ghost children = map.children@;
        proof {
            lemma_span_order(graph, level, children);
        }
        let spans = match map_span(map) {
            Some((start, len)) => start == expected_start && len == expected_end - expected_start,
            None => false,
        };
        if !spans {
            return Err(DagError::InvalidSnapshot("RangeMap span is invalid"));
        }
        let ghost all = run_bytes(graph, level, children);
        let ghost start = expected_start as int;
        let mut next: u64 = expected_start;
        let mut i: usize = 0;
        while i < map.children.len()
            invariant
                i <= map.children@.len(),
                graph == self.graph(),
                self.wf(),
                level == map.level,
                children == map.children@,
                node@ == (NodeView::RangeMap { level, children }),
                span_of(children) == Some(
                    (expected_start, (expected_end - expected_start) as u64),
                ),
                run_ok(graph, level, children, expected_start as int, expected_end as int),
                all == run_bytes(graph, level, children),
                start == expected_start,
                from <= to,
                to - from <= output@.len(),
                output@.len() == old(output)@.len(),
                expected_start <= next <= expected_end,
                i < children.len() ==> next == children[i as int].logical_start,
                i == children.len() ==> next == expected_end,
                *old(written) + shared(start, expected_end as int, from as int, to as int)
                    <= output@.len(),
                filled(
                    old(output)@,
                    output@,
                    all,
                    start,
                    next as int,
                    from as int,
                    to as int,
                ),
                *written == *old(written) + shared(start, next as int, from as int, to as int),
            decreases map.children@.len() - i,
        {
            let entry = map.children[i];
            proof {
                assert(entry_ok(graph, level, children[i as int]));
                lemma_run_prefix(
                    graph,
                    level,
                    children,
                    expected_start as int,
                    expected_end as int,
                    i as int,
                );
                if i + 1 < children.len() {
                    assert(children[i + 1].logical_start == children[i as int].logical_start
                        + children[i as int].logical_len);
                }
            }
            let entry_end: u64 = match entry.logical_start.checked_add(entry.logical_len) {
                Some(end) => end,
                None => {
                    return Err(DagError::ArithmeticOverflow);
                },
            };
            if entry.logical_start != next || entry_end > expected_end {
                return Err(
                    DagError::InvalidSnapshot("RangeMap does not cover requested Snapshot span"),
                );
            }
            let overlap_start: u64 = if from > entry.logical_start {
                from
            } else {
                entry.logical_start
            };
            let overlap_end: u64 = if to < entry_end {
                to
            } else {
                entry_end
            };
            if overlap_start < overlap_end {
                let ghost before = output@;
                match self.reconstruct_entry_range(
                    map.level,
                    &entry,
                    overlap_start,
                    overlap_end,
                    from,
                    to,
                    output,
                    written,
                ) {
                    Ok(()) => {},
                    Err(error) => {
                        return Err(error);
                    },
                }
                proof {
                    let content = entry_content(graph, level, entry);
                    lemma_run_len(
                        graph,
                        level,
                        children,
                        expected_start as int,
                        expected_end as int,
                    );
                    lemma_entry_len(graph, level, entry);
                    assert forall|p: int| 0 <= p < output@.len() implies #[trigger] output@[p]
                        == if start <= from + p < entry_end && from + p < to {
                        all[from + p - start]
                    } else {
                        old(output)@[p]
                    } by {
                        if entry.logical_start <= from + p < entry_end && from + p < to {
                            assert(content[from + p - entry.logical_start] == all[from + p
                                - start]);
                        }
                        assert(before[p] == before[p]);
                    }
                }
            }
            next = entry_end;
            i = i + 1;
        }
        if next != expected_end {
            return Err(
                DagError::InvalidSnapshot("RangeMap does not cover requested Snapshot span"),
            );
        }
        Ok(())
    }

    /// Copies what one entry has of the range into `output`.
    fn reconstruct_entry_range(
        &self,
        level: u8,
        entry: &RangeMapEntry,
        overlap_start: u64,
        overlap_end: u64,
        from: u64,
        to: u64,
        output: &mut [u8],
        written: &mut usize,
    ) -> (r: Result<(), DagError>)
        requires
            self.wf(),
            entry_ok(self.graph(), level, *entry),
            from <= to,
            overlap_start == later(from as int, entry.logical_start as int),
            overlap_end == earlier(to as int, entry.logical_start + entry.logical_len),
            overlap_start < overlap_end,
            to - from <= old(output)@.len(),
            *old(written) + (overlap_end - overlap_start) <= old(output)@.len(),
        ensures
            r is Ok,
            filled(
                old(output)@,
                final(output)@,
                entry_content(self.graph(), level, *entry),
                entry.logical_start as int,
                entry.logical_start + entry.logical_len,
                from as int,
                to as int,
            ),
            *final(written) == *old(written) + (overlap_end - overlap_start),
        decreases level, 0int,
    {
        let ghost graph = self.graph();
        let room: usize = output.len();
        proof {
            assert(graph.dom().contains(entry.child));
            assert(node_sound(graph, entry.child));
            lemma_entry_len(graph, level, *entry);
        }
        let child = match self.nodes.get(&entry.child) {
            Some(child) => child,
            None => {
                return Err(DagError::MissingNode(entry.child));
            },
        };
        let child_id = match child.id() {
            Ok(id) => id,
            Err(error) => {
                return Err(error);
            },
        };
        proof {
            lemma_id_view(child_id, entry.child);
        }
        if !same_id(&child_id, &entry.child) {
            return Err(DagError::HashMismatch(entry.child));
        }
        let destination: usize = (overlap_start - from) as usize;
        let count: usize = (overlap_end - overlap_start) as usize;
        match child {
            Node::ZeroRun(run) => {
                if run.len != entry.logical_len {
                    return Err(DagError::InvalidSnapshot("ZeroRun length mismatch"));
                }
                fill_zeros(output, destination, count);
                *written = *written + count;
                Ok(())
            },
            Node::Content(content) => {
                let total: usize = content.bytes.len();
                let content_start: usize = (entry.content_offset + (overlap_start
                    - entry.logical_start)) as usize;
                copy_into(output, destination, content.bytes.as_slice(), content_start, count);
                *written = *written + count;
                Ok(())
            },
            Node::RangeMap(child_map) => {
                proof {
                    lemma_span_order(graph, child_map.level, child_map.children@);
                }
                self.reconstruct_map_range(
                    child,
                    entry.logical_start,
                    entry.logical_start + entry.logical_len,
                    from,
                    to,
                    output,
                    written,
                )
            },
            _ => Err(
                DagError::ReferenceKind { expected: NodeKind::RangeMap, actual: child.kind() },
            ),
        }
    }
}

} // verus!
