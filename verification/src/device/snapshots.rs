//! Reading and writing snapshots in the durable graph.
use vstd::prelude::*;
use vstd::string::*;
use std::ops::Range;

use crate::bytes::{copy_range, lemma_id_view, push_all, push_range, same_id, zero_bytes};
use crate::catalog::graph::{
    entry_content, entry_ok, extents, id_of, lemma_run_extend, lemma_run_len, lemma_run_step,
    node_sound, run_bytes, run_ok, sound, Graph,
};
use crate::catalog::ids::{CommitId, NodeId};
use crate::catalog::node::{
    content_digest, content_id, CommitNode, ContentNode, Node, NodeKind, NodeView,
    RangeMapEntry, RangeMapNode, SnapshotNode, MAX_CONTENT_NODE_PAYLOAD, MAX_SNAPSHOT_EXTENTS,
    heads_of, shape_problem, lemma_well_shaped,
};
use crate::device::block::{carried, BlockDevice};
use crate::device::dag_store::{
    append_problem, appended, appended_contents, faulted, front_kept, keeps_nodes, FileDagStore,
};
use crate::device::log::{lookup, FileDagStoreError, LogView, MAX_SNAPSHOT_READ_BYTES};
use crate::device::log_laws::{filed, settled};
use crate::device::walk::{
    checked, digest_problem, finds, lemma_walk_map, maps_of, read_result, read_span, root_of,
    root_problem, snapshot_of, source, walk_entries, walk_entry, walk_map, walk_windows,
    window_end, Source, Walked,
};
use crate::hashing::{absorbed, hasher_finish, hasher_new, hasher_update};

verus! {

/// A snapshot whose contents were checked.
#[derive(Clone, Copy, Debug, PartialEq, Eq)]
pub struct VerifiedSnapshot {
    pub commit_id: CommitId,
    pub logical_size: u64,
    pub content_digest: NodeId,
}

/// How many maps and leaves a read has visited.
struct ReadBudget {
    map_nodes: usize,
    leaves: usize,
}

/// The start and length of a map's run; an empty map stands at the start.
fn map_span_for_read(map: &RangeMapNode) -> (span: Option<(u64, u64)>)
    requires
        shape_problem(map.level, heads_of(map.children@)) is None,
    ensures
        span == read_span(map.children@),
        span matches Some((start, len)) ==> start + len <= u64::MAX,
{
    if map.children.len() == 0 {
        return Some((0, 0));
    }
    let first: u64 = map.children[0].logical_start;
    let last = map.children[map.children.len() - 1];
    proof {
        lemma_well_shaped(map.level, map.children@);
        lemma_ordered(map.level, map.children@, map.children@.len() - 1);
    }
    match last.logical_start.checked_add(last.logical_len) {
        Some(end) => Some((first, end - first)),
        None => None,
    }
}

/// Entries of a well-shaped map never lie before the first.
proof fn lemma_ordered(level: u8, children: Seq<RangeMapEntry>, i: int)
    requires
        shape_problem(level, heads_of(children)) is None,
        0 <= i < children.len(),
    ensures
        children[0].logical_start <= children[i].logical_start,
    decreases i,
{
    if i > 0 {
        lemma_well_shaped(level, children);
        lemma_ordered(level, children, i - 1);
        assert(children[i].logical_start == children[i - 1].logical_start + children[i
            - 1].logical_len);
    }
}

fn validate_map_root(map: &RangeMapNode, logical_size: u64) -> (r: Result<(), FileDagStoreError>)
    requires
        shape_problem(map.level, heads_of(map.children@)) is None,
    ensures
        match root_problem(map.level, map.children@, logical_size) {
            Some(error) => r == Err::<(), FileDagStoreError>(error),
            None => r is Ok,
        },
{
    if logical_size == 0 {
        if map.level != 0 || map.children.len() != 0 {
            return Err(FileDagStoreError::InvalidSnapshot("non-canonical empty root"));
        }
        return Ok(());
    }
    match map_span_for_read(map) {
        Some((start, len)) => {
            if start != 0 || len != logical_size {
                return Err(FileDagStoreError::InvalidSnapshot("root does not cover snapshot"));
            }
        },
        None => {
            return Err(FileDagStoreError::InvalidSnapshot("map span overflow"));
        },
    }
    Ok(())
}

impl<D: BlockDevice> FileDagStore<D> {
    /// Where the store looks nodes up.
    pub open spec fn look(&self) -> Source {
        source(self.contents(), self@.nodes)
    }

    /// Appends what a map has of the bytes from `from` to `to`.
    fn read_map_range(
        &mut self,
        map: &RangeMapNode,
        logical_size: u64,
        start: u64,
        end: u64,
        from: u64,
        to: u64,
        out: &mut Vec<u8>,
        budget: &mut ReadBudget,
    ) -> (r: Result<(), FileDagStoreError>)
        requires
            old(self).wf(),
            shape_problem(map.level, heads_of(map.children@)) is None,
            start <= end,
            from <= to,
            to - from <= MAX_SNAPSHOT_READ_BYTES,
            old(budget).map_nodes <= MAX_SNAPSHOT_EXTENTS,
            old(budget).leaves <= MAX_SNAPSHOT_EXTENTS,
        ensures
            final(self).wf(),
            final(self).same_as(old(self)),
            match r {
                Ok(()) => walk_map(
                    old(self).look(),
                    map.level,
                    map.children@,
                    logical_size,
                    start,
                    end,
                    from,
                    to,
                    old(budget).map_nodes as nat,
                    old(budget).leaves as nat,
                ) matches Ok(walked) && final(out)@ == old(out)@ + walked.bytes
                    && final(budget).map_nodes == walked.maps && final(budget).leaves
                    == walked.leaves && final(budget).map_nodes <= MAX_SNAPSHOT_EXTENTS
                    && final(budget).leaves <= MAX_SNAPSHOT_EXTENTS,
                Err(error) => faulted(r, old(self).reliable()) || walk_map(
                    old(self).look(),
                    map.level,
                    map.children@,
                    logical_size,
                    start,
                    end,
                    from,
                    to,
                    old(budget).map_nodes as nat,
                    old(budget).leaves as nat,
                ) == Err::<Walked, FileDagStoreError>(error),
            },
        decreases map.level, 1int,
    {
        let ghost look = self.look();
        let ghost level = map.level;
        let ghost children = map.children@;
        if budget.map_nodes >= MAX_SNAPSHOT_EXTENTS {
            return Err(FileDagStoreError::ResourceLimit("range-map nodes"));
        }
        budget.map_nodes = budget.map_nodes + 1;
        let (span_start, span_len) = match map_span_for_read(map) {
            Some(span) => span,
            None => {
                return Err(FileDagStoreError::InvalidSnapshot("map span overflow"));
            },
        };
        let map_end: u64 = match span_start.checked_add(span_len) {
            Some(map_end) => map_end,
            None => {
                return Err(FileDagStoreError::InvalidSnapshot("map span overflow"));
            },
        };
        if span_start != start || span_len != end - start || map_end > logical_size {
            return Err(FileDagStoreError::InvalidSnapshot("map span is invalid"));
        }
        let before: usize = out.len();
        let ghost maps = budget.map_nodes as nat;
        let ghost leaves = budget.leaves as nat;
        let mut i: usize = 0;
        let mut covered: usize = 0;
        proof {
            assert(children.take(0) =~= Seq::empty());
            assert(out@ + Seq::<u8>::empty() =~= out@);
        }
        while i < map.children.len()
            invariant
                i <= map.children@.len(),
                level == map.level,
                children == map.children@,
                shape_problem(level, heads_of(children)) is None,
                look == self.look(),
                self.wf(),
                self.same_as(old(self)),
                start <= end,
                from <= to,
                to - from <= MAX_SNAPSHOT_READ_BYTES,
                maps == old(budget).map_nodes + 1,
                leaves == old(budget).leaves,
                maps <= MAX_SNAPSHOT_EXTENTS,
                read_span(children) == Some((start, (end - start) as u64)),
                start + (end - start) <= logical_size,
                budget.map_nodes <= MAX_SNAPSHOT_EXTENTS,
                budget.leaves <= MAX_SNAPSHOT_EXTENTS,
                walk_entries(
                    look,
                    level,
                    children.take(i as int),
                    logical_size,
                    from,
                    to,
                    maps,
                    leaves,
                ) matches Ok(walked) && out@ == old(out)@ + walked.bytes && budget.map_nodes
                    == walked.maps && budget.leaves == walked.leaves,
            decreases map.children@.len() - i,
        {
            let entry = map.children[i];
            proof {
                lemma_well_shaped(level, children);
                assert(children.take(i + 1).drop_last() =~= children.take(i as int));
                assert(children.take(i + 1).last() == entry);
            }
            let ghost here = out@;
            match self.read_entry_range(map.level, &entry, logical_size, from, to, out, budget) {
                Ok(()) => {},
                Err(error) => {
                    proof {
                        lemma_walk_error(
                            look,
                            level,
                            children,
                            i as int,
                            logical_size,
                            from,
                            to,
                            maps,
                            leaves,
                        );
                    }
                    return Err(error);
                },
            }
            i = i + 1;
            proof {
                let walked = walk_entries(
                    look,
                    level,
                    children.take(i as int),
                    logical_size,
                    from,
                    to,
                    maps,
                    leaves,
                )->Ok_0;
                assert(out@ =~= old(out)@ + walked.bytes);
            }
        }
        proof {
            assert(children.take(i as int) =~= children);
        }
        if out.len() - before != (to - from) as usize {
            return Err(FileDagStoreError::InvalidSnapshot("range coverage mismatch"));
        }
        Ok(())
    }

    /// Appends what one entry has of the bytes from `from` to `to`.
    fn read_entry_range(
        &mut self,
        level: u8,
        entry: &RangeMapEntry,
        logical_size: u64,
        from: u64,
        to: u64,
        out: &mut Vec<u8>,
        budget: &mut ReadBudget,
    ) -> (r: Result<(), FileDagStoreError>)
        requires
            old(self).wf(),
            from <= to,
            to - from <= MAX_SNAPSHOT_READ_BYTES,
            old(budget).map_nodes <= MAX_SNAPSHOT_EXTENTS,
            old(budget).leaves <= MAX_SNAPSHOT_EXTENTS,
        ensures
            final(self).wf(),
            final(self).same_as(old(self)),
            match r {
                Ok(()) => walk_entry(
                    old(self).look(),
                    level,
                    *entry,
                    logical_size,
                    from,
                    to,
                    old(budget).map_nodes as nat,
                    old(budget).leaves as nat,
                ) matches Ok(walked) && final(out)@ == old(out)@ + walked.bytes
                    && final(budget).map_nodes == walked.maps && final(budget).leaves
                    == walked.leaves && final(budget).map_nodes <= MAX_SNAPSHOT_EXTENTS
                    && final(budget).leaves <= MAX_SNAPSHOT_EXTENTS,
                Err(error) => faulted(r, old(self).reliable()) || walk_entry(
                    old(self).look(),
                    level,
                    *entry,
                    logical_size,
                    from,
                    to,
                    old(budget).map_nodes as nat,
                    old(budget).leaves as nat,
                ) == Err::<Walked, FileDagStoreError>(error),
            },
        decreases level, 0int,
    {
        let entry_end: u64 = match entry.logical_start.checked_add(entry.logical_len) {
            Some(end) => end,
            None => {
                return Err(FileDagStoreError::InvalidSnapshot("entry span overflow"));
            },
        };
        if entry_end <= from || entry.logical_start >= to {
            proof {
                assert(out@ + Seq::<u8>::empty() =~= out@);
            }
            return Ok(());
        }
        let start: u64 = if entry.logical_start >= from {
            entry.logical_start
        } else {
            from
        };
        let end: u64 = if entry_end <= to {
            entry_end
        } else {
            to
        };
        let count: usize = (end - start) as usize;
        match entry.child_kind {
            NodeKind::RangeMap => {
                if level == 0 {
                    return Err(FileDagStoreError::InvalidReference(entry.child));
                }
                let child = match self.read_required_node(entry.child) {
                    Ok(child) => child,
                    Err(error) => {
                        return Err(error);
                    },
                };
                let child_map = match &child {
                    Node::RangeMap(child_map) => child_map,
                    _ => {
                        return Err(FileDagStoreError::InvalidReference(entry.child));
                    },
                };
                if child_map.level >= level || child_map.level + 1 != level {
                    return Err(FileDagStoreError::InvalidReference(entry.child));
                }
                self.read_map_range(
                    child_map,
                    logical_size,
                    entry.logical_start,
                    entry_end,
                    start,
                    end,
                    out,
                    budget,
                )
            },
            NodeKind::ZeroRun => {
                if budget.leaves >= MAX_SNAPSHOT_EXTENTS {
                    return Err(FileDagStoreError::ResourceLimit("snapshot extents"));
                }
                budget.leaves = budget.leaves + 1;
                if level != 0 || entry.content_offset != 0 {
                    return Err(FileDagStoreError::InvalidReference(entry.child));
                }
                let child = match self.read_required_node(entry.child) {
                    Ok(child) => child,
                    Err(error) => {
                        return Err(error);
                    },
                };
                let run = match &child {
                    Node::ZeroRun(run) => *run,
                    _ => {
                        return Err(FileDagStoreError::InvalidReference(entry.child));
                    },
                };
                if run.len != entry.logical_len {
                    return Err(FileDagStoreError::InvalidSnapshot("ZeroRun length mismatch"));
                }
                let zero = zero_bytes(count);
                push_all(out, zero.as_slice());
                Ok(())
            },
            NodeKind::Content => {
                if budget.leaves >= MAX_SNAPSHOT_EXTENTS {
                    return Err(FileDagStoreError::ResourceLimit("snapshot extents"));
                }
                budget.leaves = budget.leaves + 1;
                if level != 0 {
                    return Err(FileDagStoreError::InvalidReference(entry.child));
                }
                let at: u64 = match entry.content_offset.checked_add(start - entry.logical_start) {
                    Some(at) => at,
                    None => {
                        return Err(
                            FileDagStoreError::InvalidSnapshot("content offset overflow"),
                        );
                    },
                };
                self.read_content_range(entry.child, at, count, out)
            },
            _ => Err(FileDagStoreError::InvalidReference(entry.child)),
        }
    }

    /// Appends `count` bytes of a content node.
    fn read_content_range(&mut self, id: NodeId, at: u64, count: usize, out: &mut Vec<u8>) -> (r: Result<
        (),
        FileDagStoreError,
    >)
        requires
            old(self).wf(),
        ensures
            final(self).wf(),
            final(self).same_as(old(self)),
            match r {
                Ok(()) => old(self).look()(id) matches Ok(NodeView::Content(bytes)) && at + count
                    <= usize::MAX && at + count <= bytes.len() && final(out)@ == old(out)@
                    + bytes.subrange(at as int, at + count),
                Err(error) => faulted(r, old(self).reliable()) || match old(self).look()(id) {
                    Err(other) => error == other,
                    Ok(NodeView::Content(bytes)) => if at > usize::MAX {
                        error == FileDagStoreError::ResourceLimit("content offset")
                    } else if at + count > usize::MAX {
                        error == FileDagStoreError::ResourceLimit("content range")
                    } else {
                        at + count > bytes.len() && error
                            == FileDagStoreError::InvalidSnapshot("Content range out of bounds")
                    },
                    Ok(_) => error == FileDagStoreError::InvalidReference(id),
                },
            },
    {
        let node = match self.read_required_node(id) {
            Ok(node) => node,
            Err(error) => {
                return Err(error);
            },
        };
        let content = match &node {
            Node::Content(content) => content,
            _ => {
                return Err(FileDagStoreError::InvalidReference(id));
            },
        };
        if at > usize::MAX as u64 {
            return Err(FileDagStoreError::ResourceLimit("content offset"));
        }
        let from: usize = at as usize;
        let to: usize = match from.checked_add(count) {
            Some(to) => to,
            None => {
                return Err(FileDagStoreError::ResourceLimit("content range"));
            },
        };
        if to > content.bytes.len() {
            return Err(FileDagStoreError::InvalidSnapshot("Content range out of bounds"));
        }
        push_range(out, content.bytes.as_slice(), from, to);
        Ok(())
    }

    /// The root map of a snapshot.
    fn read_root(&mut self, snapshot: &SnapshotNode) -> (r: Result<
        RangeMapNode,
        FileDagStoreError,
    >)
        requires
            old(self).wf(),
        ensures
            final(self).wf(),
            final(self).same_as(old(self)),
            match r {
                Ok(map) => root_of(old(self).look(), *snapshot) == Ok::<
                    (u8, Seq<RangeMapEntry>),
                    FileDagStoreError,
                >((map.level, map.children@)) && shape_problem(
                    map.level,
                    heads_of(map.children@),
                ) is None,
                Err(error) => faulted(r, old(self).reliable()) || root_of(
                    old(self).look(),
                    *snapshot,
                ) == Err::<(u8, Seq<RangeMapEntry>), FileDagStoreError>(error),
            },
    {
        let root = match self.read_required_node(snapshot.range_map_root) {
            Ok(root) => root,
            Err(error) => {
                return Err(error);
            },
        };
        match root {
            Node::RangeMap(map) => {
                match validate_map_root(&map, snapshot.logical_size) {
                    Ok(()) => Ok(map),
                    Err(error) => Err(error),
                }
            },
            _ => Err(FileDagStoreError::InvalidReference(snapshot.range_map_root)),
        }
    }

    /// Checks a snapshot's contents against its digest, unless that was done before.
    fn validate_snapshot_digest(&mut self, snapshot_id: NodeId, snapshot: &SnapshotNode) -> (r: Result<
        (),
        FileDagStoreError,
    >)
        requires
            old(self).wf(),
        ensures
            final(self).wf(),
            final(self)@ == old(self)@,
            final(self).same_bytes(old(self)),
            match r {
                Ok(()) => (old(self).validated().contains(snapshot_id) || digest_problem(
                    old(self).look(),
                    *snapshot,
                ) is None) && final(self).validated() == old(self).validated().insert(
                    snapshot_id,
                ),
                Err(error) => (faulted(r, old(self).reliable()) || (!old(
                    self,
                ).validated().contains(snapshot_id) && digest_problem(
                    old(self).look(),
                    *snapshot,
                ) == Some(error))) && final(self).validated() == old(self).validated(),
            },
    {
        if self.is_validated(&snapshot_id) {
            proof {
                assert(self.validated().insert(snapshot_id) =~= self.validated());
            }
            return Ok(());
        }
        let ghost look = self.look();
        let map = match self.read_root(snapshot) {
            Ok(map) => map,
            Err(error) => {
                return Err(error);
            },
        };
        let ghost level = map.level;
        let ghost children = map.children@;
        let size: u64 = snapshot.logical_size;
        let ghost domain = "cairn/logical-bytes/v1".spec_bytes();
        let mut hasher = hasher_new();
        hasher_update(&mut hasher, "cairn/logical-bytes/v1".as_bytes());
        let mut budget = ReadBudget { map_nodes: 0, leaves: 0 };
        let mut offset: u64 = 0;
        let ghost mut seen = Seq::<u8>::empty();
        proof {
            assert(absorbed(hasher) =~= domain + seen);
            let all = walk_windows(look, level, children, size, 0, 0, 0);
            if all is Ok {
                assert(seen + all->Ok_0.bytes =~= all->Ok_0.bytes);
            }
        }
        while offset < size
            invariant
                self.wf(),
                self.same_as(old(self)),
                look == self.look(),
                size == snapshot.logical_size,
                level == map.level,
                children == map.children@,
                shape_problem(level, heads_of(children)) is None,
                offset <= size,
                budget.map_nodes <= MAX_SNAPSHOT_EXTENTS,
                budget.leaves <= MAX_SNAPSHOT_EXTENTS,
                root_of(look, *snapshot) == Ok::<
                    (u8, Seq<RangeMapEntry>),
                    FileDagStoreError,
                >((level, children)),
                domain == "cairn/logical-bytes/v1".spec_bytes(),
                absorbed(hasher) == domain + seen,
                !old(self).validated().contains(snapshot_id),
                match walk_windows(look, level, children, size, 0, 0, 0) {
                    Err(error) => walk_windows(
                        look,
                        level,
                        children,
                        size,
                        offset,
                        budget.map_nodes as nat,
                        budget.leaves as nat,
                    ) == Err::<Walked, FileDagStoreError>(error),
                    Ok(all) => walk_windows(
                        look,
                        level,
                        children,
                        size,
                        offset,
                        budget.map_nodes as nat,
                        budget.leaves as nat,
                    ) matches Ok(rest) && all.bytes == seen + rest.bytes,
                },
            decreases size - offset,
        {
            let end: u64 = if size - offset > MAX_SNAPSHOT_READ_BYTES as u64 {
                offset + MAX_SNAPSHOT_READ_BYTES as u64
            } else {
                size
            };
            let mut chunk: Vec<u8> = Vec::new();
            match self.read_map_range(
                &map,
                size,
                0,
                size,
                offset,
                end,
                &mut chunk,
                &mut budget,
            ) {
                Ok(()) => {},
                Err(error) => {
                    return Err(error);
                },
            }
            hasher_update(&mut hasher, chunk.as_slice());
            proof {
                let before = seen;
                seen = seen + chunk@;
                assert(absorbed(hasher) =~= domain + seen);
                assert(Seq::<u8>::empty() + chunk@ =~= chunk@);
                let rest = walk_windows(
                    look,
                    level,
                    children,
                    size,
                    end,
                    budget.map_nodes as nat,
                    budget.leaves as nat,
                );
                if rest is Ok {
                    assert(before + (chunk@ + rest->Ok_0.bytes) =~= seen + rest->Ok_0.bytes);
                }
            }
            offset = end;
        }
        proof {
            assert(seen + Seq::<u8>::empty() =~= seen);
        }
        let digest = hasher_finish(&hasher);
        if !same_id(&digest, &snapshot.content_digest) {
            proof {
                if digest@ == snapshot.content_digest@ {
                    lemma_id_view(digest, snapshot.content_digest);
                }
            }
            return Err(FileDagStoreError::InvalidSnapshot("content digest mismatch"));
        }
        self.note_validated(snapshot_id);
        Ok(())
    }

    /// The snapshot of a commit.
    fn read_snapshot(&mut self, commit_id: CommitId) -> (r: Result<
        (NodeId, SnapshotNode),
        FileDagStoreError,
    >)
        requires
            old(self).wf(),
        ensures
            final(self).wf(),
            final(self).same_as(old(self)),
            match r {
                Ok(found) => snapshot_of(old(self).look(), commit_id) == Ok::<
                    (NodeId, SnapshotNode),
                    FileDagStoreError,
                >(found),
                Err(error) => faulted(r, old(self).reliable()) || snapshot_of(
                    old(self).look(),
                    commit_id,
                ) == Err::<(NodeId, SnapshotNode), FileDagStoreError>(error),
            },
    {
        let commit = match self.read_required_node(commit_id) {
            Ok(Node::Commit(commit)) => commit,
            Ok(_) => {
                return Err(FileDagStoreError::InvalidReference(commit_id));
            },
            Err(error) => {
                return Err(error);
            },
        };
        let snapshot = match self.read_required_node(commit.snapshot) {
            Ok(Node::Snapshot(snapshot)) => snapshot,
            Ok(_) => {
                return Err(FileDagStoreError::InvalidReference(commit.snapshot));
            },
            Err(error) => {
                return Err(error);
            },
        };
        Ok((commit.snapshot, snapshot))
    }

    /// The bytes of a range of a commit's snapshot. Everything on the way to them is
    /// read from the device anew and checked; the index is not trusted for it.
    pub fn read_snapshot_range(&mut self, commit_id: CommitId, range: Range<u64>) -> (r: Result<
        Vec<u8>,
        FileDagStoreError,
    >)
        requires
            old(self).wf(),
        ensures
            final(self).wf(),
            final(self)@ == old(self)@,
            final(self).same_bytes(old(self)),
            checked(
                old(self).look(),
                commit_id,
                old(self).validated(),
                final(self).validated(),
                r is Ok,
            ),
            match r {
                Ok(bytes) => read_result(
                    old(self).look(),
                    old(self).validated(),
                    commit_id,
                    range.start,
                    range.end,
                ) == Ok::<Seq<u8>, FileDagStoreError>(bytes@),
                Err(error) => faulted(r, old(self).reliable()) || read_result(
                    old(self).look(),
                    old(self).validated(),
                    commit_id,
                    range.start,
                    range.end,
                ) == Err::<Seq<u8>, FileDagStoreError>(error),
            },
    {
        if range.start > range.end {
            return Err(
                FileDagStoreError::RangeOutOfBounds {
                    start: range.start,
                    end: range.end,
                    size: 0,
                },
            );
        }
        let (snapshot_id, snapshot) = match self.read_snapshot(commit_id) {
            Ok(found) => found,
            Err(error) => {
                return Err(error);
            },
        };
        if range.end > snapshot.logical_size {
            return Err(
                FileDagStoreError::RangeOutOfBounds {
                    start: range.start,
                    end: range.end,
                    size: snapshot.logical_size,
                },
            );
        }
        if range.end - range.start > MAX_SNAPSHOT_READ_BYTES as u64 {
            return Err(FileDagStoreError::ResourceLimit("snapshot range length"));
        }
        proof {
            if self.validated().contains(snapshot_id) {
                assert(self.validated().insert(snapshot_id) =~= self.validated());
            }
        }
        match self.validate_snapshot_digest(snapshot_id, &snapshot) {
            Ok(()) => {},
            Err(error) => {
                return Err(error);
            },
        }
        let root = match self.read_root(&snapshot) {
            Ok(root) => root,
            Err(error) => {
                return Err(error);
            },
        };
        let mut output: Vec<u8> = Vec::new();
        if range.start != range.end {
            let mut budget = ReadBudget { map_nodes: 0, leaves: 0 };
            match self.read_map_range(
                &root,
                snapshot.logical_size,
                0,
                snapshot.logical_size,
                range.start,
                range.end,
                &mut output,
                &mut budget,
            ) {
                Ok(()) => {},
                Err(error) => {
                    return Err(error);
                },
            }
        }
        proof {
            assert(forall|s: Seq<u8>| Seq::<u8>::empty() + s =~= s);
        }
        Ok(output)
    }

    /// The description of a commit's snapshot, after its contents were checked.
    pub fn verified_snapshot(&mut self, commit_id: CommitId) -> (r: Result<
        VerifiedSnapshot,
        FileDagStoreError,
    >)
        requires
            old(self).wf(),
        ensures
            final(self).wf(),
            final(self)@ == old(self)@,
            final(self).same_bytes(old(self)),
            checked(
                old(self).look(),
                commit_id,
                old(self).validated(),
                final(self).validated(),
                r is Ok,
            ),
            match r {
                Ok(verified) => snapshot_of(old(self).look(), commit_id) matches Ok(
                    (snapshot_id, snapshot),
                ) && (old(self).validated().contains(snapshot_id) || digest_problem(
                    old(self).look(),
                    snapshot,
                ) is None) && verified == (VerifiedSnapshot {
                    commit_id,
                    logical_size: snapshot.logical_size,
                    content_digest: snapshot.content_digest,
                }),
                Err(error) => faulted(r, old(self).reliable()) || match snapshot_of(
                    old(self).look(),
                    commit_id,
                ) {
                    Err(other) => error == other,
                    Ok((snapshot_id, snapshot)) => !old(self).validated().contains(snapshot_id)
                        && digest_problem(old(self).look(), snapshot) == Some(error),
                },
            },
    {
        let (snapshot_id, snapshot) = match self.read_snapshot(commit_id) {
            Ok(found) => found,
            Err(error) => {
                return Err(error);
            },
        };
        proof {
            if self.validated().contains(snapshot_id) {
                assert(self.validated().insert(snapshot_id) =~= self.validated());
            }
        }
        match self.validate_snapshot_digest(snapshot_id, &snapshot) {
            Ok(()) => Ok(
                VerifiedSnapshot {
                    commit_id,
                    logical_size: snapshot.logical_size,
                    content_digest: snapshot.content_digest,
                },
            ),
            Err(error) => Err(error),
        }
    }
}

/// A walk that fails at an entry fails as a whole, with that entry's error.
proof fn lemma_walk_error(
    look: Source,
    level: u8,
    entries: Seq<RangeMapEntry>,
    at: int,
    size: u64,
    from: u64,
    to: u64,
    maps: nat,
    leaves: nat,
)
    requires
        0 <= at < entries.len(),
    ensures
        walk_entries(look, level, entries.take(at + 1), size, from, to, maps, leaves) is Err
            ==> walk_entries(look, level, entries, size, from, to, maps, leaves) == walk_entries(
            look,
            level,
            entries.take(at + 1),
            size,
            from,
            to,
            maps,
            leaves,
        ),
    decreases entries.len() - at,
{
    if at + 1 == entries.len() {
        assert(entries.take(at + 1) =~= entries);
    } else {
        let shorter = entries.drop_last();
        lemma_walk_error(look, level, shorter, at, size, from, to, maps, leaves);
        assert(shorter.take(at + 1) =~= entries.take(at + 1));
    }
}


/// How many content nodes `n` bytes take.
pub open spec fn chunk_count(n: nat) -> nat {
    (n + MAX_CONTENT_NODE_PAYLOAD - 1) as nat / MAX_CONTENT_NODE_PAYLOAD as nat
}

/// Where chunk `i` ends.
pub open spec fn chunk_end(n: nat, i: int) -> int {
    if (i + 1) * MAX_CONTENT_NODE_PAYLOAD <= n {
        (i + 1) * MAX_CONTENT_NODE_PAYLOAD
    } else {
        n as int
    }
}

/// The content node of chunk `i`.
pub open spec fn chunk_node(bytes: Seq<u8>, i: int) -> NodeView {
    NodeView::Content(
        bytes.subrange(i * MAX_CONTENT_NODE_PAYLOAD, chunk_end(bytes.len(), i)),
    )
}

pub open spec fn chunk_entry(bytes: Seq<u8>, i: int) -> RangeMapEntry {
    RangeMapEntry {
        logical_start: (i * MAX_CONTENT_NODE_PAYLOAD) as u64,
        logical_len: (chunk_end(bytes.len(), i) - i * MAX_CONTENT_NODE_PAYLOAD) as u64,
        content_offset: 0,
        child_kind: NodeKind::Content,
        child: id_of(chunk_node(bytes, i)),
    }
}

pub open spec fn chunk_entries(bytes: Seq<u8>, count: nat) -> Seq<RangeMapEntry> {
    Seq::new(count, |i: int| chunk_entry(bytes, i))
}

/// The map over all chunks.
pub open spec fn whole_map(bytes: Seq<u8>) -> NodeView {
    NodeView::RangeMap { level: 0, children: chunk_entries(bytes, chunk_count(bytes.len())) }
}

pub open spec fn whole_snapshot(bytes: Seq<u8>) -> SnapshotNode {
    SnapshotNode {
        logical_size: bytes.len() as u64,
        range_map_root: id_of(whole_map(bytes)),
        content_digest: content_id(bytes),
    }
}

pub open spec fn whole_commit(bytes: Seq<u8>, parent: Option<CommitId>) -> CommitNode {
    CommitNode { snapshot: id_of(NodeView::Snapshot(whole_snapshot(bytes))), parent }
}

/// The nodes of a whole snapshot in the order in which they depend on each other.
pub open spec fn whole_nodes(bytes: Seq<u8>, parent: Option<CommitId>) -> Seq<NodeView> {
    Seq::new(chunk_count(bytes.len()), |i: int| chunk_node(bytes, i)) + seq![
        whole_map(bytes),
        NodeView::Snapshot(whole_snapshot(bytes)),
        NodeView::Commit(whole_commit(bytes, parent)),
    ]
}

/// What appending nodes one after the other to a log on a reliable device gives.
pub open spec fn append_all(contents: Seq<u8>, log: LogView, nodes: Seq<NodeView>) -> Result<
    (Seq<u8>, LogView),
    FileDagStoreError,
>
    decreases nodes.len(),
{
    if nodes.len() == 0 {
        Ok((contents, log))
    } else {
        match append_all(contents, log, nodes.drop_last()) {
            Err(error) => Err(error),
            Ok((before, index)) => match append_problem(before, index, nodes.last()) {
                Some(error) => Err(error),
                None => Ok(
                    (
                        appended_contents(before, index, nodes.last()),
                        appended(index, nodes.last()),
                    ),
                ),
            },
        }
    }
}

/// A failure along the way is the failure of the whole.
proof fn lemma_append_all_fails(
    contents: Seq<u8>,
    log: LogView,
    nodes: Seq<NodeView>,
    at: int,
)
    requires
        0 <= at <= nodes.len(),
        append_all(contents, log, nodes.take(at)) is Err,
    ensures
        append_all(contents, log, nodes) == append_all(contents, log, nodes.take(at)),
    decreases nodes.len() - at,
{
    if at == nodes.len() {
        assert(nodes.take(at) =~= nodes);
    } else {
        let shorter = nodes.drop_last();
        assert(shorter.take(at) =~= nodes.take(at));
        lemma_append_all_fails(contents, log, shorter, at);
    }
}

/// The index after nodes were appended one after the other.
pub open spec fn indexed_all(log: LogView, nodes: Seq<NodeView>) -> LogView
    decreases nodes.len(),
{
    if nodes.len() == 0 {
        log
    } else {
        appended(indexed_all(log, nodes.drop_last()), nodes.last())
    }
}

/// Whether one of the nodes is refused with the error on some log.
#[verifier::opaque]
pub open spec fn refusable(nodes: Seq<NodeView>, error: FileDagStoreError) -> bool {
    exists|contents: Seq<u8>, log: LogView, i: int|
        0 <= i < nodes.len() && #[trigger] append_problem(contents, log, nodes[i]) == Some(error)
}

proof fn lemma_refusable(
    contents: Seq<u8>,
    log: LogView,
    nodes: Seq<NodeView>,
    i: int,
    error: FileDagStoreError,
)
    requires
        0 <= i < nodes.len(),
        append_problem(contents, log, nodes[i]) == Some(error),
    ensures
        refusable(nodes, error),
{
    reveal(refusable);
}

/// What may be answered where appending a list of nodes fails: a reliable device gives
/// the error of the first node that is refused; any other may also fail by itself.
pub open spec fn append_refused(
    reliable: bool,
    contents: Seq<u8>,
    log: LogView,
    nodes: Seq<NodeView>,
    error: FileDagStoreError,
) -> bool {
    &&& reliable ==> append_all(contents, log, nodes) == Err::<
        (Seq<u8>, LogView),
        FileDagStoreError,
    >(error)
    &&& refusable(nodes, error)
}

/// The first `n` nodes are found as they are.
pub open spec fn finds_all(look: Source, nodes: Seq<NodeView>, n: int) -> bool {
    forall|i: int|
        0 <= i < n ==> look(id_of(#[trigger] nodes[i])) == Ok::<NodeView, FileDagStoreError>(
            nodes[i],
        )
}

/// How far a list of nodes has been appended: the first `at` of them, to a log that
/// began as `log`. With `kept`, those nodes are found again.
#[verifier::opaque]
pub open spec fn appended_upto(
    reliable: bool,
    now: Seq<u8>,
    index: LogView,
    contents: Seq<u8>,
    log: LogView,
    nodes: Seq<NodeView>,
    at: int,
    kept: bool,
) -> bool {
    &&& reliable ==> append_all(contents, log, nodes.take(at)) == Ok::<
        (Seq<u8>, LogView),
        FileDagStoreError,
    >((now, index))
    &&& index == indexed_all(log, nodes.take(at))
    &&& reliable && settled(contents, log) ==> settled(now, index)
    &&& kept ==> reliable && filed(now, index) && finds_all(source(now, index.nodes), nodes, at)
        && has_all(index, nodes, at)
}

/// A list of nodes with one node more, on a reliable device.
#[verifier::spinoff_prover]
proof fn lemma_append_one_more(
    before: Seq<u8>,
    was: LogView,
    contents: Seq<u8>,
    log: LogView,
    nodes: Seq<NodeView>,
    at: int,
)
    requires
        0 <= at < nodes.len(),
        append_all(contents, log, nodes.take(at)) == Ok::<(Seq<u8>, LogView), FileDagStoreError>(
            (before, was),
        ),
        append_problem(before, was, nodes[at]) is None,
    ensures
        append_all(contents, log, nodes.take(at + 1)) == Ok::<
            (Seq<u8>, LogView),
            FileDagStoreError,
        >((appended_contents(before, was, nodes[at]), appended(was, nodes[at]))),
{
    assert(nodes.take(at + 1).drop_last() =~= nodes.take(at));
    assert(nodes.take(at + 1).last() == nodes[at]);
}

proof fn lemma_index_one_more(log: LogView, nodes: Seq<NodeView>, at: int)
    requires
        0 <= at < nodes.len(),
    ensures
        indexed_all(log, nodes.take(at + 1)) == appended(
            indexed_all(log, nodes.take(at)),
            nodes[at],
        ),
{
    assert(nodes.take(at + 1).drop_last() =~= nodes.take(at));
    assert(nodes.take(at + 1).last() == nodes[at]);
}

/// Whether the index has the first `n` nodes.
pub open spec fn has_all(index: LogView, nodes: Seq<NodeView>, n: int) -> bool {
    forall|i: int| 0 <= i < n ==> index.nodes.dom().contains(id_of(#[trigger] nodes[i]))
}

/// Nodes that were found are found after one more was appended.
#[verifier::spinoff_prover]
proof fn lemma_found_one_more(
    before: Seq<u8>,
    was: LogView,
    now: Seq<u8>,
    index: LogView,
    nodes: Seq<NodeView>,
    at: int,
)
    requires
        0 <= at < nodes.len(),
        finds_all(source(before, was.nodes), nodes, at),
        has_all(was, nodes, at),
        keeps_nodes(before, was, now, index),
        lookup(now, index.nodes, id_of(nodes[at])) == Ok::<NodeView, FileDagStoreError>(nodes[at]),
        index.nodes.dom().contains(id_of(nodes[at])),
    ensures
        finds_all(source(now, index.nodes), nodes, at + 1),
        has_all(index, nodes, at + 1),
{
    let look = source(now, index.nodes);
    assert forall|i: int| 0 <= i < at + 1 implies look(id_of(#[trigger] nodes[i])) == Ok::<
        NodeView,
        FileDagStoreError,
    >(nodes[i]) && index.nodes.dom().contains(
        id_of(nodes[i]),
    ) by {
        if i < at {
            assert(was.nodes.dom().contains(id_of(nodes[i])));
            assert(source(before, was.nodes)(id_of(nodes[i])) == Ok::<NodeView, FileDagStoreError>(
                nodes[i],
            ));
        }
    }
}

/// Appending the next node of a list takes the list one node further.
#[verifier::spinoff_prover]
proof fn lemma_appended_step(
    reliable: bool,
    before: Seq<u8>,
    was: LogView,
    now: Seq<u8>,
    index: LogView,
    contents: Seq<u8>,
    log: LogView,
    nodes: Seq<NodeView>,
    at: int,
    kept: bool,
)
    requires
        0 <= at < nodes.len(),
        appended_upto(reliable, before, was, contents, log, nodes, at, kept),
        index == appended(was, nodes[at]),
        reliable ==> append_problem(before, was, nodes[at]) is None && now == appended_contents(
            before,
            was,
            nodes[at],
        ),
        reliable && settled(before, was) ==> settled(now, index),
        reliable && filed(before, was) ==> filed(now, index) && keeps_nodes(
            before,
            was,
            now,
            index,
        ) && lookup(now, index.nodes, id_of(nodes[at])) == Ok::<NodeView, FileDagStoreError>(
            nodes[at],
        ),
    ensures
        appended_upto(reliable, now, index, contents, log, nodes, at + 1, kept),
{
    reveal(appended_upto);
    lemma_index_one_more(log, nodes, at);
    if reliable {
        lemma_append_one_more(before, was, contents, log, nodes, at);
    }
    if kept {
        lemma_found_one_more(before, was, now, index, nodes, at);
    }
}

/// Where the next node of a list is refused, so is the list.
#[verifier::spinoff_prover]
proof fn lemma_refused_step(
    reliable: bool,
    before: Seq<u8>,
    was: LogView,
    contents: Seq<u8>,
    log: LogView,
    nodes: Seq<NodeView>,
    at: int,
    kept: bool,
    error: FileDagStoreError,
)
    requires
        0 <= at < nodes.len(),
        appended_upto(reliable, before, was, contents, log, nodes, at, kept),
        append_problem(before, was, nodes[at]) == Some(error),
    ensures
        append_refused(reliable, contents, log, nodes, error),
        reliable && settled(contents, log) ==> settled(before, was),
{
    reveal(appended_upto);
    lemma_refusable(before, was, nodes, at, error);
    assert(nodes.take(at + 1).drop_last() =~= nodes.take(at));
    assert(nodes.take(at + 1).last() == nodes[at]);
    if reliable {
        lemma_append_all_fails(contents, log, nodes, at + 1);
    }
}

proof fn lemma_settled_so_far(
    reliable: bool,
    now: Seq<u8>,
    index: LogView,
    contents: Seq<u8>,
    log: LogView,
    nodes: Seq<NodeView>,
    at: int,
    kept: bool,
)
    requires
        appended_upto(reliable, now, index, contents, log, nodes, at, kept),
    ensures
        reliable && settled(contents, log) ==> settled(now, index),
{
    reveal(appended_upto);
}

impl<D: BlockDevice> FileDagStore<D> {
    /// Appends one node of a list of which the nodes before it were appended.
    #[verifier::spinoff_prover]
    #[verifier::rlimit(30)]
    fn append_next(
        &mut self,
        node: &Node,
        Ghost(contents): Ghost<Seq<u8>>,
        Ghost(log): Ghost<LogView>,
        Ghost(nodes): Ghost<Seq<NodeView>>,
        Ghost(at): Ghost<int>,
        Ghost(kept): Ghost<bool>,
    ) -> (r: Result<NodeId, FileDagStoreError>)
        requires
            old(self).wf(),
            0 <= at < nodes.len(),
            node@ == nodes[at],
            appended_upto(
                old(self).reliable(),
                old(self).contents(),
                old(self)@,
                contents,
                log,
                nodes,
                at,
                kept,
            ),
        ensures
            final(self).wf(),
            final(self).reliable() == old(self).reliable(),
            final(self).validated() == old(self).validated(),
            carried(old(self).inner(), final(self).inner(), r is Ok),
            front_kept(*old(self), *final(self), old(self)@.next as int),
            r is Ok ==> old(self)@.next <= final(self)@.next,
            grown(old(self)@, final(self)@),
            match r {
                Ok(id) => id == id_of(node@) && id@ == node@.digest() && appended_upto(
                    final(self).reliable(),
                    final(self).contents(),
                    final(self)@,
                    contents,
                    log,
                    nodes,
                    at + 1,
                    kept,
                ),
                Err(error) => faulted(r, old(self).reliable()) || append_refused(
                    old(self).reliable(),
                    contents,
                    log,
                    nodes,
                    error,
                ),
            },
            old(self).reliable() && settled(contents, log) ==> settled(
                final(self).contents(),
                final(self)@,
            ),
    {
        let r = self.append_node(node);
        proof {
            let before = old(self).contents();
            let was = old(self)@;
            let reliable = old(self).reliable();
            lemma_settled_so_far(reliable, before, was, contents, log, nodes, at, kept);
            if r is Ok {
                lemma_appended_step(
                    reliable,
                    before,
                    was,
                    self.contents(),
                    self@,
                    contents,
                    log,
                    nodes,
                    at,
                    kept,
                );
            } else if !faulted(r, reliable) {
                lemma_refused_step(
                    reliable,
                    before,
                    was,
                    contents,
                    log,
                    nodes,
                    at,
                    kept,
                    r->Err_0,
                );
            }
        }
        r
    }

    /// Appends the content nodes of a whole snapshot and returns the entries for
    /// them.
    fn append_chunks(
        &mut self,
        bytes: &[u8],
        Ghost(parent): Ghost<Option<CommitId>>,
        Ghost(kept): Ghost<bool>,
    ) -> (r: Result<Vec<RangeMapEntry>, FileDagStoreError>)
        requires
            old(self).wf(),
            kept ==> old(self).reliable() && filed(old(self).contents(), old(self)@),
        ensures
            final(self).wf(),
            final(self).reliable() == old(self).reliable(),
            final(self).validated() == old(self).validated(),
            carried(old(self).inner(), final(self).inner(), r is Ok),
            front_kept(*old(self), *final(self), old(self)@.next as int),
            r is Ok ==> old(self)@.next <= final(self)@.next,
            grown(old(self)@, final(self)@),
            match r {
                Ok(children) => children@ == chunk_entries(bytes@, chunk_count(bytes@.len()))
                    && appended_upto(
                    final(self).reliable(),
                    final(self).contents(),
                    final(self)@,
                    old(self).contents(),
                    old(self)@,
                    whole_nodes(bytes@, parent),
                    chunk_count(bytes@.len()) as int,
                    kept,
                ),
                Err(error) => faulted(r, old(self).reliable()) || append_refused(
                    old(self).reliable(),
                    old(self).contents(),
                    old(self)@,
                    whole_nodes(bytes@, parent),
                    error,
                ),
            },
            old(self).reliable() && settled(old(self).contents(), old(self)@) ==> settled(
                final(self).contents(),
                final(self)@,
            ),
    {
        let ghost contents = self.contents();
        let ghost log = self@;
        let ghost data = bytes@;
        let ghost nodes = whole_nodes(data, parent);
        let ghost count = chunk_count(data.len());
        let n: usize = bytes.len();
        let mut children: Vec<RangeMapEntry> = Vec::new();
        let mut start: usize = 0;
        let ghost mut i: int = 0;
        proof {
            self.lemma_ends_within();
            reveal(appended_upto);
            assert(nodes.take(0) =~= Seq::empty());
            assert(chunk_entries(data, 0) =~= children@);
        }
        while start < n
            invariant
                self.wf(),
                self.reliable() == old(self).reliable(),
                self.validated() == old(self).validated(),
                carried(old(self).inner(), self.inner(), true),
                front_kept(*old(self), *self, old(self)@.next as int),
                old(self)@.next <= self@.next,
                grown(old(self)@, self@),
                contents == old(self).contents(),
                log == old(self)@,
                data == bytes@,
                n == data.len(),
                nodes == whole_nodes(data, parent),
                count == chunk_count(data.len()),
                i >= 0,
                start == if i * 8_388_608 <= n {
                    i * 8_388_608
                } else {
                    n as int
                },
                i > 0 ==> (i - 1) * 8_388_608 < n,
                children@ == chunk_entries(data, i as nat),
                appended_upto(
                    self.reliable(),
                    self.contents(),
                    self@,
                    contents,
                    log,
                    nodes,
                    i,
                    kept,
                ),
                self.reliable() && settled(contents, log) ==> settled(self.contents(), self@),
            decreases n - start,
        {
            let end: usize = if n - start > MAX_CONTENT_NODE_PAYLOAD {
                start + MAX_CONTENT_NODE_PAYLOAD
            } else {
                n
            };
            let chunk = copy_range(bytes, start, end);
            let len: usize = end - start;
            let node = Node::Content(ContentNode { bytes: chunk });
            proof {
                assert(i < count);
                assert(chunk_end(data.len(), i) == end);
                assert(nodes[i] == chunk_node(data, i));
                assert(node@ == nodes[i]);
            }
            let child = match self.append_next(
                &node,
                Ghost(contents),
                Ghost(log),
                Ghost(nodes),
                Ghost(i),
                Ghost(kept),
            ) {
                Ok(child) => child,
                Err(error) => {
                    return Err(error);
                },
            };
            children.push(
                RangeMapEntry {
                    logical_start: start as u64,
                    logical_len: len as u64,
                    content_offset: 0,
                    child_kind: NodeKind::Content,
                    child,
                },
            );
            proof {
                i = i + 1;
                assert(children@ =~= chunk_entries(data, i as nat));
            }
            start = end;
        }
        proof {
            assert(i == count);
        }
        Ok(children)
    }
}

/// Whether the log knows every node that it knew, and the same operations.
pub open spec fn grown(log: LogView, more: LogView) -> bool {
    &&& forall|id: NodeId| #[trigger]
        log.nodes.dom().contains(id) ==> more.nodes.dom().contains(id) && more.nodes[id]
            == log.nodes[id]
    &&& more.bindings == log.bindings
    &&& more.tombstones == log.tombstones
}

/// Whether the log holds a whole snapshot: every node of it is found.
pub open spec fn holds_snapshot(look: Source, bytes: Seq<u8>, parent: Option<CommitId>) -> bool {
    finds_all(look, whole_nodes(bytes, parent), whole_nodes(bytes, parent).len() as int)
}

impl<D: BlockDevice> FileDagStore<D> {
    /// Appends a whole snapshot and its commit, each node after those it depends on.
    pub fn append_snapshot(&mut self, bytes: &[u8], parent: Option<CommitId>) -> (r: Result<
        VerifiedSnapshot,
        FileDagStoreError,
    >)
        requires
            old(self).wf(),
        ensures
            final(self).wf(),
            final(self).reliable() == old(self).reliable(),
            final(self).validated() == old(self).validated(),
            carried(old(self).inner(), final(self).inner(), r is Ok),
            front_kept(*old(self), *final(self), old(self)@.next as int),
            r is Ok ==> old(self)@.next <= final(self)@.next,
            grown(old(self)@, final(self)@),
            match r {
                Ok(verified) => verified == (VerifiedSnapshot {
                    commit_id: id_of(NodeView::Commit(whole_commit(bytes@, parent))),
                    logical_size: bytes@.len() as u64,
                    content_digest: content_id(bytes@),
                }) && final(self)@ == indexed_all(
                    old(self)@,
                    whole_nodes(bytes@, parent),
                ) && (old(self).reliable() ==> append_all(
                    old(self).contents(),
                    old(self)@,
                    whole_nodes(bytes@, parent),
                ) == Ok::<(Seq<u8>, LogView), FileDagStoreError>(
                    (final(self).contents(), final(self)@),
                )),
                Err(error) => faulted(r, old(self).reliable()) || append_refused(
                    old(self).reliable(),
                    old(self).contents(),
                    old(self)@,
                    whole_nodes(bytes@, parent),
                    error,
                ),
            },
            old(self).reliable() && settled(old(self).contents(), old(self)@) ==> settled(
                final(self).contents(),
                final(self)@,
            ),
            old(self).reliable() && filed(old(self).contents(), old(self)@) && r is Ok
                ==> holds_snapshot(final(self).look(), bytes@, parent),
    {
        let ghost contents = self.contents();
        let ghost log = self@;
        let ghost data = bytes@;
        let ghost nodes = whole_nodes(data, parent);
        let ghost count = chunk_count(data.len());
        let ghost kept = self.reliable() && filed(contents, log);
        let n: usize = bytes.len();
        let children = match self.append_chunks(bytes, Ghost(parent), Ghost(kept)) {
            Ok(children) => children,
            Err(error) => {
                return Err(error);
            },
        };
        proof {
            assert(nodes[count as int] == whole_map(data));
            assert(nodes[count as int + 1] == NodeView::Snapshot(whole_snapshot(data)));
            assert(nodes[count as int + 2] == NodeView::Commit(whole_commit(data, parent)));
        }
        let map = Node::RangeMap(RangeMapNode { level: 0, children });
        let range_map_root = match self.append_next(
            &map,
            Ghost(contents),
            Ghost(log),
            Ghost(nodes),
            Ghost(count as int),
            Ghost(kept),
        ) {
            Ok(id) => id,
            Err(error) => {
                return Err(error);
            },
        };
        let digest = content_digest(bytes);
        proof {
            lemma_id_view(content_id(data), digest);
        }
        let snapshot_node = Node::Snapshot(
            SnapshotNode { logical_size: n as u64, range_map_root, content_digest: digest },
        );
        let snapshot = match self.append_next(
            &snapshot_node,
            Ghost(contents),
            Ghost(log),
            Ghost(nodes),
            Ghost(count as int + 1),
            Ghost(kept),
        ) {
            Ok(id) => id,
            Err(error) => {
                return Err(error);
            },
        };
        let commit_node = Node::Commit(CommitNode { snapshot, parent });
        let commit = match self.append_next(
            &commit_node,
            Ghost(contents),
            Ghost(log),
            Ghost(nodes),
            Ghost(count as int + 2),
            Ghost(kept),
        ) {
            Ok(id) => id,
            Err(error) => {
                return Err(error);
            },
        };
        proof {
            reveal(appended_upto);
            assert(nodes.take(count as int + 3) =~= nodes);
        }
        Ok(
            VerifiedSnapshot {
                commit_id: commit,
                logical_size: n as u64,
                content_digest: digest,
            },
        )
    }
}

/// The content nodes of a whole snapshot.
pub open spec fn chunk_graph(bytes: Seq<u8>) -> Graph {
    Map::new(
        |id: NodeId|
            exists|i: int|
                0 <= i < chunk_count(bytes.len()) && id == id_of(#[trigger] chunk_node(bytes, i)),
        |id: NodeId|
            chunk_node(
                bytes,
                choose|i: int|
                    0 <= i < chunk_count(bytes.len()) && id == id_of(
                        #[trigger] chunk_node(bytes, i),
                    ),
            ),
    )
}

proof fn lemma_chunk_graph(look: Source, bytes: Seq<u8>, parent: Option<CommitId>)
    requires
        holds_snapshot(look, bytes, parent),
        bytes.len() <= 2_147_483_648,
    ensures
        sound(chunk_graph(bytes)),
        finds(look, chunk_graph(bytes)),
        run_ok(
            chunk_graph(bytes),
            0,
            chunk_entries(bytes, chunk_count(bytes.len())),
            0,
            bytes.len() as int,
        ),
        run_bytes(chunk_graph(bytes), 0, chunk_entries(bytes, chunk_count(bytes.len())))
            == bytes,
        maps_of(chunk_graph(bytes), 0, chunk_entries(bytes, chunk_count(bytes.len()))) == 0,
        extents(chunk_graph(bytes), 0, chunk_entries(bytes, chunk_count(bytes.len()))) <= 256,
        chunk_count(bytes.len()) <= 256,
{
    let graph = chunk_graph(bytes);
    let nodes = whole_nodes(bytes, parent);
    let count = chunk_count(bytes.len());
    assert forall|i: int| 0 <= i < count implies nodes[i] == #[trigger] chunk_node(bytes, i) by {}
    assert forall|id: NodeId| #[trigger] graph.dom().contains(id) implies look(id) == Ok::<
        NodeView,
        FileDagStoreError,
    >(graph[id]) && node_sound(graph, id) by {
        let i = choose|i: int|
            0 <= i < count && id == id_of(#[trigger] chunk_node(bytes, i));
        assert(nodes[i] == chunk_node(bytes, i));
        assert(graph[id] == nodes[i]);
        assert(chunk_end(bytes.len(), i) - i * 8_388_608 <= 8_388_608);
    }
    lemma_chunk_run(look, bytes, parent, count);
    assert(chunk_end_of(bytes.len(), count as int) == bytes.len());
    assert(bytes.take(bytes.len() as int) =~= bytes);
}

/// Where the first `i` chunks end.
pub open spec fn chunk_end_of(n: nat, i: int) -> int {
    if i * 8_388_608 <= n {
        i * 8_388_608
    } else {
        n as int
    }
}

proof fn lemma_chunk_run(look: Source, bytes: Seq<u8>, parent: Option<CommitId>, n: nat)
    requires
        holds_snapshot(look, bytes, parent),
        bytes.len() <= 2_147_483_648,
        n <= chunk_count(bytes.len()),
    ensures
        run_ok(
            chunk_graph(bytes),
            0,
            chunk_entries(bytes, n),
            0,
            chunk_end_of(bytes.len(), n as int),
        ),
        run_bytes(chunk_graph(bytes), 0, chunk_entries(bytes, n)) == bytes.take(
            chunk_end_of(bytes.len(), n as int),
        ),
        maps_of(chunk_graph(bytes), 0, chunk_entries(bytes, n)) == 0,
        extents(chunk_graph(bytes), 0, chunk_entries(bytes, n)) == n,
    decreases n,
{
    let graph = chunk_graph(bytes);
    let entries = chunk_entries(bytes, n);
    if n == 0 {
        assert(bytes.take(0) =~= Seq::empty());
    } else {
        let i = n - 1;
        lemma_chunk_run(look, bytes, parent, i as nat);
        let entry = chunk_entry(bytes, i);
        let nodes = whole_nodes(bytes, parent);
        assert(entries.drop_last() =~= chunk_entries(bytes, i as nat));
        assert(entries.last() == entry);
        assert(nodes[i] == chunk_node(bytes, i));
        assert(graph.dom().contains(entry.child)) by {
            assert(entry.child == id_of(chunk_node(bytes, i)));
        }
        assert(graph[entry.child] == chunk_node(bytes, i)) by {
            let j = choose|j: int|
                0 <= j < chunk_count(bytes.len()) && entry.child == id_of(
                    #[trigger] chunk_node(bytes, j),
                );
            assert(nodes[j] == chunk_node(bytes, j));
            assert(look(entry.child) == Ok::<NodeView, FileDagStoreError>(nodes[j]));
            assert(look(entry.child) == Ok::<NodeView, FileDagStoreError>(nodes[i]));
        }
        assert(entry_ok(graph, 0, entry));
        lemma_run_extend(
            graph,
            0,
            chunk_entries(bytes, i as nat),
            0,
            chunk_end_of(bytes.len(), i),
            entry,
        );
        assert(chunk_entries(bytes, i as nat).push(entry) =~= entries);
        lemma_run_step(graph, 0, entries);
        let from = chunk_end_of(bytes.len(), i);
        let to = chunk_end_of(bytes.len(), n as int);
        assert(entry_content(graph, 0, entry) =~= bytes.subrange(from, to));
        assert(bytes.take(from) + bytes.subrange(from, to) =~= bytes.take(to));
    }
}

/// How many windows are left from `offset` on.
pub open spec fn windows_left(offset: u64, size: u64) -> int {
    (size - offset + 67_108_863) / 67_108_864
}

proof fn lemma_windows(
    look: Source,
    graph: Graph,
    children: Seq<RangeMapEntry>,
    size: u64,
    offset: u64,
    maps: nat,
    leaves: nat,
)
    requires
        sound(graph),
        finds(look, graph),
        run_ok(graph, 0, children, 0, size as int),
        offset <= size,
        children.len() > 0 || size == 0,
        maps_of(graph, 0, children) == 0,
        extents(graph, 0, children) <= 256,
        maps + windows_left(offset, size) <= 1000,
        leaves + 256 * windows_left(offset, size) <= 100_000,
    ensures
        walk_windows(look, 0, children, size, offset, maps, leaves) matches Ok(walked)
            && walked.bytes == run_bytes(graph, 0, children).subrange(
            offset as int,
            size as int,
        ),
    decreases size - offset,
{
    let all = run_bytes(graph, 0, children);
    lemma_run_len(graph, 0, children, 0, size as int);
    if offset < size {
        let end = window_end(offset, size);
        lemma_walk_map(
            look,
            graph,
            0,
            children,
            size,
            0,
            size,
            offset,
            end,
            maps,
            leaves,
        );
        let here = walk_map(look, 0, children, size, 0, size, offset, end, maps, leaves)->Ok_0;
        assert(windows_left(end, size) <= windows_left(offset, size) - 1);
        lemma_windows(look, graph, children, size, end, here.maps, here.leaves);
        assert(all.subrange(offset as int, end as int) + all.subrange(end as int, size as int)
            =~= all.subrange(offset as int, size as int));
    } else {
        assert(all.subrange(offset as int, size as int) =~= Seq::empty());
    }
}

/// A snapshot that the log holds reads back, range by range, exactly as it was
/// written, whether or not it was checked before.
pub proof fn law_written_snapshot_reads_back(
    look: Source,
    validated: Set<NodeId>,
    bytes: Seq<u8>,
    parent: Option<CommitId>,
    start: u64,
    end: u64,
)
    requires
        holds_snapshot(look, bytes, parent),
        bytes.len() <= 2_147_483_648,
        start <= end <= bytes.len(),
        end - start <= MAX_SNAPSHOT_READ_BYTES,
    ensures
        read_result(
            look,
            validated,
            id_of(NodeView::Commit(whole_commit(bytes, parent))),
            start,
            end,
        ) == Ok::<Seq<u8>, FileDagStoreError>(bytes.subrange(start as int, end as int)),
        digest_problem(look, whole_snapshot(bytes)) is None,
{
    let graph = chunk_graph(bytes);
    let nodes = whole_nodes(bytes, parent);
    let count = chunk_count(bytes.len());
    let children = chunk_entries(bytes, count);
    let snapshot = whole_snapshot(bytes);
    let commit = whole_commit(bytes, parent);
    assert(nodes[count as int] == whole_map(bytes));
    assert(nodes[count as int + 1] == NodeView::Snapshot(snapshot));
    assert(nodes[count as int + 2] == NodeView::Commit(commit));
    lemma_chunk_graph(look, bytes, parent);
    let size = snapshot.logical_size;
    assert(root_of(look, snapshot) == Ok::<(u8, Seq<RangeMapEntry>), FileDagStoreError>(
        (0u8, children),
    ));
    lemma_windows(look, graph, children, size, 0, 0, 0);
    assert(bytes.subrange(0, size as int) =~= bytes);
    if start < end {
        lemma_walk_map(look, graph, 0, children, size, 0, size, start, end, 0, 0);
    } else {
        assert(bytes.subrange(start as int, end as int) =~= Seq::empty());
    }
}

} // verus!
