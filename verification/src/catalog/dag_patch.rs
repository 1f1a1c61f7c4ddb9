//! Building the map of a new snapshot out of an old one and patches.
use vstd::prelude::*;
use std::ops::Range;

use crate::bytes::{copy_range, lemma_pow256_values, pow256, splice, zeros};
use crate::catalog::dag::{digest_result, fits, lemma_span_order, walk_problem, Dag};
use crate::catalog::dag_leaves::{
    base_extents, base_leaves, end_of, from_leaf, is_edge, leaves_right,
    lemma_group_leaves, lemma_leaves_concat, lemma_leaves_count, lemma_leaves_flat,
    lemma_leaves_right_stable, lemma_leaves_stable, lemma_step_leaf, map_leaves,
};
use crate::catalog::dag_read::{lemma_snapshot_len, snapshot_at, snapshot_bytes};
use crate::catalog::graph::{
    entry_content, entry_leaves, entry_ok, extends, id_of, leaves_of, lemma_entry_len, lemma_extents_step,
    lemma_leaves, lemma_run_concat, lemma_run_extend, lemma_run_len, lemma_run_map, lemma_run_part,
    lemma_run_prefix, lemma_run_push, lemma_run_stable, map_bytes, map_extents, node_sound, run_bytes, run_ok,
    sound, Graph,
};
use crate::catalog::ids::NodeId;
use crate::catalog::node::{
    content_id, span_of, ContentNode, DagError, Node, NodeKind, NodeView, RangeMapEntry,
    RangeMapNode, ZeroRunNode, MAX_CHILDREN, MAX_CONTENT_NODE_PAYLOAD, MAX_LEVEL,
    MAX_LOGICAL_FILE_SIZE, MAX_SNAPSHOT_EXTENTS,
};

verus! {

/// A patch as mathematical values.
pub struct PatchView {
    pub start: u64,
    pub end: u64,
    pub bytes: Seq<u8>,
}

pub open spec fn patch_views(patches: Seq<(Range<u64>, &[u8])>) -> Seq<PatchView> {
    Seq::new(
        patches.len(),
        |i: int|
            PatchView {
                start: patches[i].0.start,
                end: patches[i].0.end,
                bytes: patches[i].1@,
            },
    )
}

/// `base` cut or extended with zeros to `size` bytes.
pub open spec fn resized(base: Seq<u8>, size: nat) -> Seq<u8> {
    Seq::new(
        size,
        |i: int|
            if i < base.len() {
                base[i]
            } else {
                0u8
            },
    )
}

/// `base` with the patches written over it, one after the other.
pub open spec fn overlaid(base: Seq<u8>, patches: Seq<PatchView>) -> Seq<u8>
    decreases patches.len(),
{
    if patches.len() == 0 {
        base
    } else {
        splice(
            overlaid(base, patches.drop_last()),
            patches.last().start as int,
            patches.last().bytes,
        )
    }
}

/// Some patch reaches into the next one.
pub open spec fn patches_overlap(patches: Seq<PatchView>) -> bool {
    exists|i: int, j: int|
        #![trigger patches[i], patches[j]]
        0 <= i && j == i + 1 && j < patches.len() && patches[i].end > patches[j].start
}

pub open spec fn patch_fits(patch: PatchView, size: u64) -> bool {
    patch.start < patch.end && patch.end <= size && patch.end - patch.start == patch.bytes.len()
}

/// Every patch lies within `size` bytes and is as long as its bytes.
pub open spec fn patches_fit(patches: Seq<PatchView>, size: u64) -> bool {
    forall|i: int| 0 <= i < patches.len() ==> patch_fits(#[trigger] patches[i], size)
}

pub open spec fn patch_too_large(patches: Seq<PatchView>) -> bool {
    exists|i: int|
        0 <= i < patches.len() && (#[trigger] patches[i]).bytes.len() > MAX_CONTENT_NODE_PAYLOAD
}

/// The bytes that are patched.
pub open spec fn base_bytes(graph: Graph, base: Option<NodeId>) -> Seq<u8> {
    match base {
        Some(id) => match snapshot_at(graph, id) {
            Some(snapshot) => snapshot_bytes(graph, snapshot),
            None => Seq::empty(),
        },
        None => Seq::empty(),
    }
}

/// Why a snapshot cannot be patched, if it cannot.
pub open spec fn patch_problem(
    graph: Graph,
    base: Option<NodeId>,
    base_len: u64,
    size: u64,
    patches: Seq<PatchView>,
) -> Option<DagError> {
    let base_issue = match base {
        Some(id) => match snapshot_at(graph, id) {
            Some(snapshot) => if snapshot.logical_size != base_len {
                Some(DagError::InvalidSnapshot("base Snapshot size mismatch"))
            } else {
                None
            },
            None => if graph.dom().contains(id) {
                Some(DagError::InvalidReference(id))
            } else {
                Some(DagError::MissingNode(id))
            },
        },
        None => None,
    };
    if size > MAX_LOGICAL_FILE_SIZE {
        Some(DagError::InvalidSnapshot("invalid patched Snapshot size"))
    } else if base_issue is Some {
        base_issue
    } else if patches_overlap(patches) {
        Some(DagError::InvalidSnapshot("overlapping Snapshot patches"))
    } else if !patches_fit(patches, size) {
        Some(DagError::InvalidSnapshot("invalid Snapshot patch"))
    } else if patch_too_large(patches) {
        Some(DagError::ResourceLimit("Content node payload"))
    } else {
        None
    }
}

/// Two different nodes that both have an encoding share an identifier, and one of
/// them is in the graph.
pub open spec fn collides(graph: Graph, error: DagError) -> bool {
    error matches DagError::HashMismatch(id) && graph.dom().contains(id) && exists|node: NodeView|
        #[trigger] node.digest() == id@ && node != graph[id] && node.problem() is None
}

/// A range map in the graph that covers exactly `size` bytes.
pub open spec fn covers(graph: Graph, root: NodeId, size: u64) -> bool {
    &&& graph.dom().contains(root)
    &&& graph[root] matches NodeView::RangeMap { level, children } && if size == 0 {
        level == 0 && children.len() == 0
    } else {
        span_of(children) == Some((0u64, size))
    }
}

/// A map that covers a file, with no more extents than a snapshot may have, is walked to its
/// end: its digest is that of the bytes.
pub proof fn law_covering_map_has_its_digest(graph: Graph, root: NodeId, size: u64)
    requires
        covers(graph, root, size),
        map_extents(graph, root) <= MAX_SNAPSHOT_EXTENTS,
    ensures
        walk_problem(graph, graph[root], 0, size, 0) is None,
        digest_result(graph, root, size) == Ok::<NodeId, DagError>(
            content_id(map_bytes(graph, root)),
        ),
{
}

pub proof fn lemma_patches_sorted(patches: Seq<PatchView>, size: u64, i: int, j: int)
    requires
        patches_fit(patches, size),
        !patches_overlap(patches),
        0 <= i < j < patches.len(),
    ensures
        patches[i].end <= patches[j].start,
    decreases j - i,
{
    assert(patch_fits(patches[j - 1], size));
    assert(patches[j - 1].end <= patches[j].start);
    if i < j - 1 {
        lemma_patches_sorted(patches, size, i, j - 1);
    }
}

proof fn lemma_overlaid_len(base: Seq<u8>, patches: Seq<PatchView>, size: u64)
    requires
        patches_fit(patches, size),
        base.len() == size,
    ensures
        overlaid(base, patches).len() == size,
    decreases patches.len(),
{
    if patches.len() > 0 {
        let rest = patches.drop_last();
        assert forall|i: int| 0 <= i < rest.len() implies patch_fits(#[trigger] rest[i], size) by {
            assert(rest[i] == patches[i]);
        }
        lemma_overlaid_len(base, rest, size);
        assert(patch_fits(patches[patches.len() - 1], size));
    }
}

/// What stands at one position after the patches.
proof fn lemma_overlaid_at(base: Seq<u8>, patches: Seq<PatchView>, size: u64, at: int)
    requires
        patches_fit(patches, size),
        !patches_overlap(patches),
        base.len() == size,
        0 <= at < size,
    ensures
        overlaid(base, patches).len() == size,
        forall|k: int|
            0 <= k < patches.len() && (#[trigger] patches[k]).start <= at < patches[k].end
                ==> overlaid(base, patches)[at] == patches[k].bytes[at - patches[k].start],
        (forall|k: int|
            0 <= k < patches.len() ==> !((#[trigger] patches[k]).start <= at < patches[k].end))
            ==> overlaid(base, patches)[at] == base[at],
    decreases patches.len(),
{
    lemma_overlaid_len(base, patches, size);
    if patches.len() > 0 {
        let rest = patches.drop_last();
        let last = patches.last();
        assert(patch_fits(patches[patches.len() - 1], size));
        assert forall|i: int| 0 <= i < rest.len() implies patch_fits(#[trigger] rest[i], size) by {
            assert(rest[i] == patches[i]);
        }
        assert(!patches_overlap(rest)) by {
            assert forall|i: int, j: int|
                #![trigger rest[i], rest[j]]
                0 <= i && j == i + 1 && j < rest.len() implies rest[i].end <= rest[j].start by {
                assert(rest[i] == patches[i] && rest[j] == patches[j]);
            }
        }
        lemma_overlaid_at(base, rest, size, at);
        assert forall|k: int|
            0 <= k < patches.len() && (#[trigger] patches[k]).start <= at
                < patches[k].end implies overlaid(base, patches)[at] == patches[k].bytes[at
            - patches[k].start] by {
            if k < rest.len() {
                assert(rest[k] == patches[k]);
                lemma_patches_sorted(patches, size, k, patches.len() - 1);
            }
        }
        if forall|k: int|
            0 <= k < patches.len() ==> !((#[trigger] patches[k]).start <= at < patches[k].end) {
            assert forall|k: int| 0 <= k < rest.len() implies !((#[trigger] rest[k]).start <= at
                < rest[k].end) by {
                assert(rest[k] == patches[k]);
            }
            assert(!(patches[patches.len() - 1].start <= at < patches[patches.len() - 1].end));
        }
    }
}

impl Dag {
    /// Adds a node, not a snapshot, with nothing wrong with it.
    fn insert_fitting(&mut self, node: Node) -> (r: Result<NodeId, DagError>)
        requires
            old(self).wf(),
            fits(old(self).graph(), node@),
            !(node@ is Snapshot),
        ensures
            final(self).wf(),
            extends(old(self).graph(), final(self).graph()),
            final(self).bindings() == old(self).bindings(),
            match r {
                Ok(id) => final(self).graph().dom().contains(id) && final(self).graph()[id]
                    == node@,
                Err(error) => collides(final(self).graph(), error),
            },
    {
        let ghost view = node@;
        let r = self.insert(node);
        proof {
            if r is Err {
                assert(view.digest() == id_of(view)@);
            }
        }
        r
    }

    /// Appends the leaves under a range map, in order.
    #[verifier::rlimit(40)]
    #[verifier::spinoff_prover]
    fn collect_leaf_entries(&self, node_id: NodeId, leaves: &mut Vec<RangeMapEntry>) -> (r: Result<
        (),
        DagError,
    >)
        requires
            self.wf(),
            self.graph().dom().contains(node_id),
            self.graph()[node_id] is RangeMap,
        ensures
            r is Ok,
            self.graph()[node_id] matches NodeView::RangeMap { level, children } && final(leaves)@
                == old(leaves)@ + leaves_of(self.graph(), level, children),
        decreases self.graph()[node_id]->level,
    {
        let ghost graph = self.graph();
        proof {
            assert(node_sound(graph, node_id));
        }
        let map = match self.nodes.get(&node_id) {
            Some(Node::RangeMap(map)) => map,
            Some(_) => {
                return Err(DagError::InvalidReference(node_id));
            },
            None => {
                return Err(DagError::MissingNode(node_id));
            },
        };
        let ghost level = map.level;
        let ghost children = map.children@;
        proof {
            lemma_span_order(graph, level, children);
            assert(children.take(0) =~= Seq::empty());
            assert(leaves@ + leaves_of(graph, level, children.take(0)) =~= leaves@);
        }
        let mut i: usize = 0;
        while i < map.children.len()
            invariant
                i <= map.children@.len(),
                graph == self.graph(),
                self.wf(),
                level == map.level,
                children == map.children@,
                graph.dom().contains(node_id),
                graph[node_id] == (NodeView::RangeMap { level, children }),
                children.len() > 0 ==> run_ok(
                    graph,
                    level,
                    children,
                    children[0].logical_start as int,
                    children.last().logical_start + children.last().logical_len,
                ),
                leaves@ == old(leaves)@ + leaves_of(graph, level, children.take(i as int)),
            decreases map.children@.len() - i,
        {
            let entry = map.children[i];
            proof {
                assert(entry_ok(graph, level, children[i as int]));
                lemma_extents_step(graph, level, children, i as int);
                assert(graph.dom().contains(entry.child));
            }
            match entry.child_kind {
                NodeKind::Content | NodeKind::ZeroRun => {
                    leaves.push(entry);
                },
                NodeKind::RangeMap => {
                    match self.collect_leaf_entries(entry.child, leaves) {
                        Ok(()) => {},
                        Err(error) => {
                            return Err(error);
                        },
                    }
                },
                _ => {
                    return Err(DagError::InvalidSnapshot("invalid leaf map child"));
                },
            }
            i = i + 1;
            proof {
                assert(leaves@ =~= old(leaves)@ + leaves_of(
                    graph,
                    level,
                    children.take(i as int),
                ));
            }
        }
        proof {
            assert(children.take(i as int) =~= children);
        }
        Ok(())
    }

    /// Adds a map over some of the entries of a run and returns the entry for it.
    fn add_group(
        &mut self,
        level: u8,
        nodes: &Vec<RangeMapEntry>,
        at: usize,
        end: usize,
        size: u64,
    ) -> (r: Result<RangeMapEntry, DagError>)
        requires
            old(self).wf(),
            level < MAX_LEVEL,
            at < end <= nodes@.len(),
            end - at <= MAX_CHILDREN,
            run_ok(old(self).graph(), level, nodes@, 0, size as int),
        ensures
            final(self).wf(),
            extends(old(self).graph(), final(self).graph()),
            final(self).bindings() == old(self).bindings(),
            match r {
                Ok(entry) => entry_ok(final(self).graph(), (level + 1) as u8, entry)
                    && entry.logical_start == nodes@[at as int].logical_start
                    && entry.logical_start + entry.logical_len == nodes@[end - 1].logical_start
                    + nodes@[end - 1].logical_len && entry_content(
                    final(self).graph(),
                    (level + 1) as u8,
                    entry,
                ) == run_bytes(
                    old(self).graph(),
                    level,
                    nodes@.subrange(at as int, end as int),
                ) && entry_leaves(final(self).graph(), (level + 1) as u8, entry) == leaves_of(
                    old(self).graph(),
                    level,
                    nodes@.subrange(at as int, end as int),
                ),
                Err(error) => collides(final(self).graph(), error),
            },
    {
        let n: usize = nodes.len();
        let mut group: Vec<RangeMapEntry> = Vec::new();
        let mut i: usize = at;
        while i < end
            invariant
                at <= i <= end <= n,
                n == nodes@.len(),
                group@ == nodes@.subrange(at as int, i as int),
            decreases end - i,
        {
            group.push(nodes[i]);
            i = i + 1;
            proof {
                assert(group@ =~= nodes@.subrange(at as int, i as int));
            }
        }
        let ghost part = group@;
        let start: u64 = nodes[at].logical_start;
        let last = nodes[end - 1];
        let ghost before = self.graph();
        proof {
            lemma_run_part(before, level, nodes@, 0, size as int, at as int, end as int);
            assert(entry_ok(before, level, nodes@[end - 1]));
            let to = last.logical_start + last.logical_len;
            lemma_run_len(before, level, part, start as int, to);
            lemma_run_map(before, level, part, start as int, to);
        }
        let stop: u64 = last.logical_start + last.logical_len;
        let child = match self.insert_fitting(
            Node::RangeMap(RangeMapNode { level, children: group }),
        ) {
            Ok(child) => child,
            Err(error) => {
                return Err(error);
            },
        };
        proof {
            lemma_run_stable(before, self.graph(), level, part, start as int, stop as int);
            assert(part[0] == nodes@[at as int]);
            assert(part.last() == last);
        }
        let entry = RangeMapEntry {
            logical_start: start,
            logical_len: stop - start,
            content_offset: 0,
            child_kind: NodeKind::RangeMap,
            child,
        };
        proof {
            lemma_group_leaves(
                before,
                self.graph(),
                level,
                part,
                start as int,
                stop as int,
                entry,
            );
        }
        Ok(entry)
    }

    /// Groups a run into maps of at most `MAX_CHILDREN` entries and returns the run
    /// of those maps, one level up.
    #[verifier::rlimit(60)]
    #[verifier::spinoff_prover]
    fn group_entries(&mut self, level: u8, nodes: &Vec<RangeMapEntry>, size: u64) -> (r: Result<
        Vec<RangeMapEntry>,
        DagError,
    >)
        requires
            old(self).wf(),
            level < MAX_LEVEL,
            nodes@.len() > 0,
            run_ok(old(self).graph(), level, nodes@, 0, size as int),
        ensures
            final(self).wf(),
            extends(old(self).graph(), final(self).graph()),
            final(self).bindings() == old(self).bindings(),
            match r {
                Ok(parents) => run_ok(
                    final(self).graph(),
                    (level + 1) as u8,
                    parents@,
                    0,
                    size as int,
                ) && run_bytes(final(self).graph(), (level + 1) as u8, parents@) == run_bytes(
                    old(self).graph(),
                    level,
                    nodes@,
                ) && leaves_of(final(self).graph(), (level + 1) as u8, parents@) == leaves_of(
                    old(self).graph(),
                    level,
                    nodes@,
                ) && 0 < parents@.len() && parents@.len() * 256 < nodes@.len() + 256,
                Err(error) => collides(final(self).graph(), error),
            },
    {
        let ghost first = self.graph();
        let ghost above = (level + 1) as u8;
        let n: usize = nodes.len();
        let mut parents: Vec<RangeMapEntry> = Vec::new();
        let mut at: usize = 0;
        let mut covered: u64 = 0;
        proof {
            assert(nodes@.take(0) =~= Seq::empty());
        }
        while at < n
            invariant
                at <= n,
                n == nodes@.len(),
                level < MAX_LEVEL,
                above == level + 1,
                first == old(self).graph(),
                sound(first),
                run_ok(first, level, nodes@, 0, size as int),
                self.wf(),
                extends(first, self.graph()),
                self.bindings() == old(self).bindings(),
                run_ok(self.graph(), above, parents@, 0, covered as int),
                at < n ==> covered == nodes@[at as int].logical_start,
                at == n ==> covered == size,
                run_bytes(self.graph(), above, parents@) == run_bytes(
                    first,
                    level,
                    nodes@.take(at as int),
                ),
                leaves_of(self.graph(), above, parents@) == leaves_of(
                    first,
                    level,
                    nodes@.take(at as int),
                ),
                parents@.len() * 256 < at + 256,
                at < n ==> parents@.len() * 256 == at,
                at > 0 ==> parents@.len() > 0,
            decreases n - at,
        {
            let end: usize = if n - at > MAX_CHILDREN {
                at + MAX_CHILDREN
            } else {
                n
            };
            let ghost before = self.graph();
            let ghost part = nodes@.subrange(at as int, end as int);
            proof {
                lemma_run_stable(first, before, level, nodes@, 0, size as int);
                lemma_run_part(first, level, nodes@, 0, size as int, at as int, end as int);
                lemma_run_stable(
                    first,
                    before,
                    level,
                    part,
                    nodes@[at as int].logical_start as int,
                    nodes@[end - 1].logical_start + nodes@[end - 1].logical_len,
                );
                lemma_leaves_stable(
                    first,
                    before,
                    level,
                    part,
                    nodes@[at as int].logical_start as int,
                    nodes@[end - 1].logical_start + nodes@[end - 1].logical_len,
                );
            }
            let entry = match self.add_group(level, nodes, at, end, size) {
                Ok(entry) => entry,
                Err(error) => {
                    return Err(error);
                },
            };
            let stop: u64 = entry.logical_start + entry.logical_len;
            proof {
                let now = self.graph();
                lemma_run_stable(before, now, above, parents@, 0, covered as int);
                lemma_leaves_stable(before, now, above, parents@, 0, covered as int);
                lemma_leaves_concat(first, level, nodes@.take(at as int), part);
                lemma_run_extend(now, above, parents@, 0, covered as int, entry);
                lemma_run_push(now, above, parents@, entry);
                lemma_run_concat(first, level, nodes@.take(at as int), part);
                assert(nodes@.take(at as int) + part =~= nodes@.take(end as int));
                if end < n {
                    lemma_run_part(first, level, nodes@, 0, size as int, end as int, n as int);
                } else {
                    assert(nodes@[end - 1] == nodes@.last());
                }
            }
            parents.push(entry);
            covered = stop;
            at = end;
        }
        proof {
            assert(nodes@.take(at as int) =~= nodes@);
        }
        Ok(parents)
    }

    /// Adds the maps over a run of leaves and returns their root.
    fn build_map_from_entries(&mut self, entries: Vec<RangeMapEntry>, size: u64) -> (r: Result<
        NodeId,
        DagError,
    >)
        requires
            old(self).wf(),
            run_ok(old(self).graph(), 0, entries@, 0, size as int),
        ensures
            final(self).wf(),
            extends(old(self).graph(), final(self).graph()),
            final(self).bindings() == old(self).bindings(),
            match r {
                Ok(root) => covers(final(self).graph(), root, size) && map_bytes(
                    final(self).graph(),
                    root,
                ) == run_bytes(old(self).graph(), 0, entries@) && map_leaves(
                    final(self).graph(),
                    root,
                ) == entries@ && map_extents(final(self).graph(), root) == entries@.len(),
                Err(error) => collides(final(self).graph(), error),
            },
    {
        let ghost first = self.graph();
        let ghost bytes = run_bytes(first, 0, entries@);
        let ghost leaves = entries@;
        proof {
            lemma_leaves_flat(first, leaves, 0, size as int);
        }
        let mut nodes = entries;
        if nodes.len() == 0 {
            proof {
                lemma_run_map(first, 0, nodes@, 0, size as int);
            }
            let ghost empty = nodes@;
            let r = self.insert_fitting(
                Node::RangeMap(RangeMapNode { level: 0, children: nodes }),
            );
            proof {
                assert(run_bytes(self.graph(), 0, empty) =~= bytes);
                assert(leaves_of(self.graph(), 0, empty) =~= empty);
            }
            return r;
        }
        let mut level: u8 = 0;
        let count: usize = nodes.len();
        proof {
            lemma_pow256_values();
        }
        while nodes.len() > MAX_CHILDREN
            invariant
                self.wf(),
                sound(first),
                first == old(self).graph(),
                extends(first, self.graph()),
                self.bindings() == old(self).bindings(),
                level <= 7,
                nodes@.len() > 0,
                nodes@.len() <= pow256((8 - level) as nat),
                run_ok(self.graph(), level, nodes@, 0, size as int),
                run_bytes(self.graph(), level, nodes@) == bytes,
                leaves_of(self.graph(), level, nodes@) == leaves,
            decreases 8 - level,
        {
            proof {
                lemma_pow256_values();
                if level == 7 {
                    assert(pow256(1) == 256);
                }
                assert(pow256((8 - level) as nat) == 256 * pow256((7 - level) as nat));
            }
            let ghost before = self.graph();
            let parents = match self.group_entries(level, &nodes, size) {
                Ok(parents) => parents,
                Err(error) => {
                    return Err(error);
                },
            };
            nodes = parents;
            level = level + 1;
        }
        proof {
            lemma_run_map(self.graph(), level, nodes@, 0, size as int);
            lemma_run_len(self.graph(), level, nodes@, 0, size as int);
        }
        let ghost before = self.graph();
        let ghost top = nodes@;
        let r = self.insert_fitting(Node::RangeMap(RangeMapNode { level, children: nodes }));
        proof {
            lemma_run_stable(before, self.graph(), level, top, 0, size as int);
            lemma_leaves_stable(before, self.graph(), level, top, 0, size as int);
            lemma_leaves_count(self.graph(), level, top, 0, size as int);
        }
        r
    }
}


/// One where the walk has come to the next patch, else zero.
spec fn begun(patches: Seq<PatchView>, patch_at: int, cursor: u64) -> int {
    if patch_at < patches.len() && patches[patch_at].start <= cursor {
        1
    } else {
        0
    }
}

/// Where the walk goes on from `cursor`.
spec fn next_end(
    leaves: Seq<RangeMapEntry>,
    patches: Seq<PatchView>,
    size: u64,
    cursor: u64,
    leaf_at: int,
    patch_at: int,
) -> int {
    let at_leaf = if leaf_at < leaves.len() && end_of(leaves[leaf_at]) < size {
        end_of(leaves[leaf_at])
    } else {
        size as int
    };
    if patch_at < patches.len() {
        let bound = if patches[patch_at].start <= cursor {
            patches[patch_at].end
        } else {
            patches[patch_at].start
        };
        if bound < at_leaf {
            bound as int
        } else {
            at_leaf
        }
    } else {
        at_leaf
    }
}

/// The walk goes on from the edge of a patch or a leaf, or is done.
proof fn lemma_next_edge(
    leaves: Seq<RangeMapEntry>,
    patches: Seq<PatchView>,
    size: u64,
    cursor: u64,
    end: u64,
    leaf_at: int,
    patch_at: int,
)
    requires
        end == next_end(leaves, patches, size, cursor, leaf_at, patch_at),
        0 <= leaf_at <= leaves.len(),
        0 <= patch_at <= patches.len(),
    ensures
        end < size ==> is_edge(leaves, patches, end as int),
{
    if end < size {
        if patch_at < patches.len() && (patches[patch_at].start == end || patches[patch_at].end
            == end) {
        } else {
            assert(end_of(leaves[leaf_at]) == end);
        }
    }
}

/// The bytes that a step of the patch walk has to stand for.
pub open spec fn step_bytes(
    graph: Graph,
    cursor: u64,
    end: u64,
    leaf: Option<RangeMapEntry>,
    patch: Option<(u64, NodeId)>,
) -> Seq<u8> {
    match patch {
        Some((start, node)) => graph[node]->Content_0.subrange(cursor - start, end - start),
        None => match leaf {
            Some(entry) => entry_content(graph, 0, entry).subrange(
                cursor - entry.logical_start,
                end - entry.logical_start,
            ),
            None => zeros((end - cursor) as nat),
        },
    }
}

impl Dag {
    /// The entry for the bytes from `cursor` to `end`, which lie in one patch, or
    /// else in one leaf of the old map, or else in neither.
    fn patched_entry(
        &mut self,
        cursor: u64,
        end: u64,
        leaf: Option<RangeMapEntry>,
        patch: Option<(u64, NodeId)>,
    ) -> (r: Result<RangeMapEntry, DagError>)
        requires
            old(self).wf(),
            cursor < end <= MAX_LOGICAL_FILE_SIZE,
            patch matches Some((start, node)) ==> start <= cursor && old(
                self,
            ).graph().dom().contains(node) && old(self).graph()[node] is Content && end - start
                <= old(self).graph()[node]->Content_0.len(),
            leaf matches Some(entry) ==> entry_ok(old(self).graph(), 0, entry)
                && entry.logical_start <= cursor && end <= entry.logical_start
                + entry.logical_len,
        ensures
            final(self).wf(),
            extends(old(self).graph(), final(self).graph()),
            final(self).bindings() == old(self).bindings(),
            match r {
                Ok(entry) => entry_ok(final(self).graph(), 0, entry) && entry.logical_start
                    == cursor && entry.logical_start + entry.logical_len == end && entry_content(
                    final(self).graph(),
                    0,
                    entry,
                ) == step_bytes(old(self).graph(), cursor, end, leaf, patch) && match patch {
                    Some((start, node)) => entry.child_kind == NodeKind::Content && entry.child
                        == node && entry.content_offset == cursor - start,
                    None => if leaf is Some && leaf->0.child_kind != NodeKind::ZeroRun {
                        from_leaf(leaf->0, entry)
                    } else {
                        entry.child_kind == NodeKind::ZeroRun
                    },
                },
                Err(error) => collides(final(self).graph(), error),
            },
    {
        let ghost before = self.graph();
        match patch {
            Some((start, node)) => {
                return Ok(
                    RangeMapEntry {
                        logical_start: cursor,
                        logical_len: end - cursor,
                        content_offset: cursor - start,
                        child_kind: NodeKind::Content,
                        child: node,
                    },
                );
            },
            None => {},
        }
        if let Some(entry) = leaf {
            if entry.child_kind != NodeKind::ZeroRun {
                let moved = RangeMapEntry {
                    logical_start: cursor,
                    logical_len: end - cursor,
                    content_offset: entry.content_offset + (cursor - entry.logical_start),
                    child_kind: entry.child_kind,
                    child: entry.child,
                };
                proof {
                    let bytes = before[entry.child]->Content_0;
                    assert(entry_content(before, 0, moved) =~= entry_content(
                        before,
                        0,
                        entry,
                    ).subrange(cursor - entry.logical_start, end - entry.logical_start));
                }
                return Ok(moved);
            }
        }
        let node = Node::ZeroRun(ZeroRunNode { len: end - cursor });
        let child = match self.insert_fitting(node) {
            Ok(child) => child,
            Err(error) => {
                return Err(error);
            },
        };
        let entry = RangeMapEntry {
            logical_start: cursor,
            logical_len: end - cursor,
            content_offset: 0,
            child_kind: NodeKind::ZeroRun,
            child,
        };
        proof {
            assert(entry_content(self.graph(), 0, entry) =~= step_bytes(
                before,
                cursor,
                end,
                leaf,
                patch,
            ));
        }
        Ok(entry)
    }

    /// Adds a content node for each patch.
    fn insert_patches(&mut self, patches: &[(Range<u64>, &[u8])]) -> (r: Result<
        Vec<NodeId>,
        DagError,
    >)
        requires
            old(self).wf(),
        ensures
            final(self).wf(),
            extends(old(self).graph(), final(self).graph()),
            final(self).bindings() == old(self).bindings(),
            match r {
                Ok(nodes) => nodes@.len() == patches@.len() && !patch_too_large(
                    patch_views(patches@),
                ) && forall|i: int|
                    0 <= i < nodes@.len() ==> final(self).graph().dom().contains(
                        #[trigger] nodes@[i],
                    ) && final(self).graph()[nodes@[i]] == NodeView::Content(patches@[i].1@),
                Err(error) => collides(final(self).graph(), error) || (error
                    == DagError::ResourceLimit("Content node payload") && patch_too_large(
                    patch_views(patches@),
                )),
            },
    {
        let ghost views = patch_views(patches@);
        let mut nodes: Vec<NodeId> = Vec::new();
        let mut i: usize = 0;
        while i < patches.len()
            invariant
                i <= patches@.len(),
                views == patch_views(patches@),
                self.wf(),
                extends(old(self).graph(), self.graph()),
                self.bindings() == old(self).bindings(),
                nodes@.len() == i,
                forall|j: int|
                    0 <= j < i ==> (#[trigger] views[j]).bytes.len() <= MAX_CONTENT_NODE_PAYLOAD,
                forall|j: int|
                    0 <= j < nodes@.len() ==> self.graph().dom().contains(#[trigger] nodes@[j])
                        && self.graph()[nodes@[j]] == NodeView::Content(patches@[j].1@),
            decreases patches@.len() - i,
        {
            let source: &[u8] = patches[i].1;
            let bytes = copy_range(source, 0, source.len());
            proof {
                assert(bytes@ =~= patches@[i as int].1@);
                assert(views[i as int].bytes == patches@[i as int].1@);
            }
            if bytes.len() > MAX_CONTENT_NODE_PAYLOAD {
                return Err(DagError::ResourceLimit("Content node payload"));
            }
            let ghost before = self.graph();
            match self.insert_fitting(Node::Content(ContentNode { bytes })) {
                Ok(id) => {
                    nodes.push(id);
                },
                Err(error) => {
                    return Err(error);
                },
            }
            proof {
                assert forall|j: int| 0 <= j < nodes@.len() implies self.graph().dom().contains(
                    #[trigger] nodes@[j],
                ) && self.graph()[nodes@[j]] == NodeView::Content(patches@[j].1@) by {
                    if j < i {
                        assert(before.dom().contains(nodes@[j]));
                    }
                }
            }
            i = i + 1;
        }
        Ok(nodes)
    }

    #[verifier::rlimit(80)]
    #[verifier::spinoff_prover]
    /// Walks over the old leaves and the patches and returns the run of new leaves.
    fn patched_entries(
        &mut self,
        leaves: &Vec<RangeMapEntry>,
        base_size: u64,
        logical_size: u64,
        patches: &[(Range<u64>, &[u8])],
        patch_nodes: &Vec<NodeId>,
    ) -> (r: Result<Vec<RangeMapEntry>, DagError>)
        requires
            old(self).wf(),
            logical_size <= MAX_LOGICAL_FILE_SIZE,
            run_ok(old(self).graph(), 0, leaves@, 0, base_size as int),
            patches_fit(patch_views(patches@), logical_size),
            !patches_overlap(patch_views(patches@)),
            patch_nodes@.len() == patches@.len(),
            forall|i: int|
                0 <= i < patch_nodes@.len() ==> old(self).graph().dom().contains(
                    #[trigger] patch_nodes@[i],
                ) && old(self).graph()[patch_nodes@[i]] == NodeView::Content(patches@[i].1@),
        ensures
            final(self).wf(),
            extends(old(self).graph(), final(self).graph()),
            final(self).bindings() == old(self).bindings(),
            match r {
                Ok(entries) => run_ok(
                    final(self).graph(),
                    0,
                    entries@,
                    0,
                    logical_size as int,
                ) && run_bytes(final(self).graph(), 0, entries@) == overlaid(
                    resized(
                        run_bytes(old(self).graph(), 0, leaves@),
                        logical_size as nat,
                    ),
                    patch_views(patches@),
                ) && leaves_right(
                    old(self).graph(),
                    leaves@,
                    patch_views(patches@),
                    entries@,
                ) && entries@.len() <= leaves@.len() + 2 * patches@.len() + 1,
                Err(error) => collides(final(self).graph(), error),
            },
    {
        let ghost first = self.graph();
        let ghost views = patch_views(patches@);
        let ghost base = run_bytes(first, 0, leaves@);
        let ghost plain = resized(base, logical_size as nat);
        let ghost target = overlaid(plain, views);
        let mut entries: Vec<RangeMapEntry> = Vec::new();
        let mut cursor: u64 = 0;
        let mut leaf_at: usize = 0;
        let mut patch_at: usize = 0;
        proof {
            lemma_overlaid_len(plain, views, logical_size);
            lemma_run_len(first, 0, leaves@, 0, base_size as int);
            assert(target.take(0) =~= Seq::empty());
            if patches@.len() > 0 {
                assert(patch_fits(views[0], logical_size));
            }
            if leaves@.len() > 0 {
                assert(entry_ok(first, 0, leaves@[0]));
            }
        }
        while cursor < logical_size
            invariant
                first == old(self).graph(),
                sound(first),
                logical_size <= MAX_LOGICAL_FILE_SIZE,
                run_ok(first, 0, leaves@, 0, base_size as int),
                base == run_bytes(first, 0, leaves@),
                base.len() == base_size,
                views == patch_views(patches@),
                patches_fit(views, logical_size),
                !patches_overlap(views),
                plain == resized(base, logical_size as nat),
                target == overlaid(plain, views),
                target.len() == logical_size,
                patch_nodes@.len() == patches@.len(),
                forall|i: int|
                    0 <= i < patch_nodes@.len() ==> first.dom().contains(
                        #[trigger] patch_nodes@[i],
                    ) && first[patch_nodes@[i]] == NodeView::Content(patches@[i].1@),
                self.wf(),
                extends(first, self.graph()),
                self.bindings() == old(self).bindings(),
                cursor <= logical_size,
                leaf_at <= leaves@.len(),
                if cursor < base_size {
                    leaf_at < leaves@.len() && leaves@[leaf_at as int].logical_start <= cursor
                        < leaves@[leaf_at as int].logical_start
                        + leaves@[leaf_at as int].logical_len
                } else {
                    leaf_at == leaves@.len()
                },
                patch_at <= views.len(),
                patch_at < views.len() ==> views[patch_at as int].end > cursor,
                patch_at > 0 ==> views[patch_at - 1].end <= cursor,
                run_ok(self.graph(), 0, entries@, 0, cursor as int),
                run_bytes(self.graph(), 0, entries@) == target.take(cursor as int),
                cursor < logical_size ==> is_edge(leaves@, views, cursor as int),
                leaves_right(first, leaves@, views, entries@),
                entries@.len() <= leaf_at + 2 * patch_at + begun(views, patch_at as int, cursor)
                    + (if cursor == logical_size {
                    1int
                } else {
                    0
                }),
            decreases logical_size - cursor,
        {
            let mut end: u64 = logical_size;
            let mut leaf: Option<RangeMapEntry> = None;
            if leaf_at < leaves.len() {
                let entry = leaves[leaf_at];
                proof {
                    assert(entry_ok(first, 0, leaves@[leaf_at as int]));
                }
                let leaf_end: u64 = entry.logical_start + entry.logical_len;
                if leaf_end < end {
                    end = leaf_end;
                }
                leaf = Some(entry);
            }
            let mut patch: Option<(u64, NodeId)> = None;
            if patch_at < patches.len() {
                let start: u64 = patches[patch_at].0.start;
                let stop: u64 = patches[patch_at].0.end;
                proof {
                    assert(patch_fits(views[patch_at as int], logical_size));
                    assert(first.dom().contains(patch_nodes@[patch_at as int]));
                }
                if start <= cursor {
                    if stop < end {
                        end = stop;
                    }
                    patch = Some((start, patch_nodes[patch_at]));
                } else if start < end {
                    end = start;
                }
            }
            let ghost before = self.graph();
            proof {
                lemma_next_edge(
                    leaves@,
                    views,
                    logical_size,
                    cursor,
                    end,
                    leaf_at as int,
                    patch_at as int,
                );
                if leaf is Some {
                    assert(first.dom().contains(leaf->0.child));
                    assert(entry_ok(before, 0, leaf->0));
                }
            }
            let entry = match self.patched_entry(cursor, end, leaf, patch) {
                Ok(entry) => entry,
                Err(error) => {
                    return Err(error);
                },
            };
            proof {
                let now = self.graph();
                lemma_step_bytes(
                    first,
                    before,
                    leaves@,
                    base_size,
                    views,
                    logical_size,
                    cursor,
                    end,
                    leaf_at as int,
                    patch_at as int,
                    leaf,
                    patch,
                );
                lemma_step_leaf(
                    first,
                    leaves@,
                    base_size,
                    views,
                    logical_size,
                    leaf_at as int,
                    patch_at as int,
                    patch is Some,
                    entry,
                );
                lemma_run_stable(before, now, 0, entries@, 0, cursor as int);
                lemma_run_extend(now, 0, entries@, 0, cursor as int, entry);
                lemma_run_push(now, 0, entries@, entry);
                assert(target.take(cursor as int) + target.subrange(cursor as int, end as int)
                    =~= target.take(end as int));
            }
            entries.push(entry);
            cursor = end;
            if leaf_at < leaves.len() {
                let here = leaves[leaf_at];
                if here.logical_start + here.logical_len <= cursor {
                    proof {
                        if leaf_at + 1 < leaves@.len() {
                            assert(leaves@[leaf_at + 1].logical_start
                                == leaves@[leaf_at as int].logical_start
                                + leaves@[leaf_at as int].logical_len);
                            assert(entry_ok(first, 0, leaves@[leaf_at + 1]));
                            lemma_run_prefix(
                                first,
                                0,
                                leaves@,
                                0,
                                base_size as int,
                                leaf_at + 1,
                            );
                        } else {
                            assert(leaves@.last() == leaves@[leaf_at as int]);
                        }
                    }
                    leaf_at = leaf_at + 1;
                } else {
                    proof {
                        lemma_run_prefix(
                            first,
                            0,
                            leaves@,
                            0,
                            base_size as int,
                            leaf_at as int,
                        );
                    }
                }
            }
            if patch_at < patches.len() {
                if patches[patch_at].0.end <= cursor {
                    proof {
                        if patch_at + 1 < views.len() {
                            assert(patch_fits(views[patch_at + 1], logical_size));
                            lemma_patches_sorted(
                                views,
                                logical_size,
                                patch_at as int,
                                patch_at + 1,
                            );
                        }
                    }
                    patch_at = patch_at + 1;
                }
            }
        }
        proof {
            assert(target.take(cursor as int) =~= target);
        }
        Ok(entries)
    }

    /// Builds the range map of a new snapshot out of an old snapshot and patches.
    /// Old leaves are kept by identifier: only the entries that a patch touches,
    /// zero runs and the maps above them are new.
    pub fn patch_snapshot(
        &mut self,
        base_snapshot: Option<NodeId>,
        base_len: u64,
        logical_size: u64,
        patches: &[(Range<u64>, &[u8])],
    ) -> (r: Result<NodeId, DagError>)
        requires
            old(self).wf(),
        ensures
            final(self).wf(),
            extends(old(self).graph(), final(self).graph()),
            final(self).bindings() == old(self).bindings(),
            match patch_problem(
                old(self).graph(),
                base_snapshot,
                base_len,
                logical_size,
                patch_views(patches@),
            ) {
                Some(error) => r == Err::<NodeId, DagError>(error) || (r matches Err(other)
                    && collides(final(self).graph(), other)),
                None => match r {
                    Ok(root) => covers(final(self).graph(), root, logical_size) && map_bytes(
                        final(self).graph(),
                        root,
                    ) == overlaid(
                        resized(
                            base_bytes(old(self).graph(), base_snapshot),
                            logical_size as nat,
                        ),
                        patch_views(patches@),
                    ) && leaves_right(
                        final(self).graph(),
                        base_leaves(old(self).graph(), base_snapshot),
                        patch_views(patches@),
                        map_leaves(final(self).graph(), root),
                    ) && map_extents(final(self).graph(), root) <= base_extents(
                        old(self).graph(),
                        base_snapshot,
                    ) + 2 * patches@.len() + 1 && (map_extents(final(self).graph(), root)
                        <= MAX_SNAPSHOT_EXTENTS ==> digest_result(
                        final(self).graph(),
                        root,
                        logical_size,
                    ) == Ok::<NodeId, DagError>(
                        content_id(map_bytes(final(self).graph(), root)),
                    )),
                    Err(error) => collides(final(self).graph(), error),
                },
            },
    {
        let ghost first = self.graph();
        let ghost views = patch_views(patches@);
        if logical_size > MAX_LOGICAL_FILE_SIZE {
            return Err(DagError::InvalidSnapshot("invalid patched Snapshot size"));
        }
        let mut leaves: Vec<RangeMapEntry> = Vec::new();
        let mut base_size: u64 = 0;
        if let Some(snapshot_id) = base_snapshot {
            let snapshot = match self.nodes.get(&snapshot_id) {
                Some(Node::Snapshot(snapshot)) => *snapshot,
                Some(_) => {
                    return Err(DagError::InvalidReference(snapshot_id));
                },
                None => {
                    return Err(DagError::MissingNode(snapshot_id));
                },
            };
            if snapshot.logical_size != base_len {
                return Err(DagError::InvalidSnapshot("base Snapshot size mismatch"));
            }
            proof {
                assert(first.dom().contains(snapshot_id));
                assert(node_sound(first, snapshot_id));
                lemma_snapshot_len(first, snapshot);
            }
            match self.collect_leaf_entries(snapshot.range_map_root, &mut leaves) {
                Ok(()) => {},
                Err(error) => {
                    return Err(error);
                },
            }
            base_size = base_len;
            proof {
                if let NodeView::RangeMap { level, children } = first[snapshot.range_map_root] {
                    lemma_leaves(first, level, children, 0, base_size as int);
                    lemma_leaves_count(first, level, children, 0, base_size as int);
                    assert(leaves@ =~= leaves_of(first, level, children));
                }
            }
        }
        proof {
            assert(base_snapshot is None ==> run_bytes(first, 0, leaves@) =~= base_bytes(
                first,
                base_snapshot,
            ));
        }
        let mut i: usize = 1;
        while i < patches.len()
            invariant
                1 <= i,
                views == patch_views(patches@),
                forall|a: int, b: int|
                    #![trigger views[a], views[b]]
                    0 <= a && b == a + 1 && b < i && b < views.len() ==> views[a].end
                        <= views[b].start,
                first == self.graph(),
                self.wf(),
                first == old(self).graph(),
                self.bindings() == old(self).bindings(),
                patch_problem(first, base_snapshot, base_len, logical_size, views)
                    == if patches_overlap(views) {
                    Some(DagError::InvalidSnapshot("overlapping Snapshot patches"))
                } else if !patches_fit(views, logical_size) {
                    Some(DagError::InvalidSnapshot("invalid Snapshot patch"))
                } else if patch_too_large(views) {
                    Some(DagError::ResourceLimit("Content node payload"))
                } else {
                    None
                },
            decreases patches@.len() - i,
        {
            if patches[i - 1].0.end > patches[i].0.start {
                proof {
                    assert(views[i - 1].end > views[i as int].start);
                }
                return Err(DagError::InvalidSnapshot("overlapping Snapshot patches"));
            }
            proof {
                assert(views[i - 1].end <= views[i as int].start);
            }
            i = i + 1;
        }
        let mut i: usize = 0;
        while i < patches.len()
            invariant
                i <= patches@.len(),
                views == patch_views(patches@),
                !patches_overlap(views),
                forall|k: int| 0 <= k < i ==> patch_fits(#[trigger] views[k], logical_size),
                first == self.graph(),
                self.wf(),
                first == old(self).graph(),
                self.bindings() == old(self).bindings(),
                patch_problem(first, base_snapshot, base_len, logical_size, views)
                    == if !patches_fit(views, logical_size) {
                    Some(DagError::InvalidSnapshot("invalid Snapshot patch"))
                } else if patch_too_large(views) {
                    Some(DagError::ResourceLimit("Content node payload"))
                } else {
                    None
                },
            decreases patches@.len() - i,
        {
            let start: u64 = patches[i].0.start;
            let end: u64 = patches[i].0.end;
            if start >= end || end > logical_size || end - start != patches[i].1.len() as u64 {
                proof {
                    assert(!patch_fits(views[i as int], logical_size));
                }
                return Err(DagError::InvalidSnapshot("invalid Snapshot patch"));
            }
            proof {
                assert(patch_fits(views[i as int], logical_size));
            }
            i = i + 1;
        }
        let patch_nodes = match self.insert_patches(patches) {
            Ok(nodes) => nodes,
            Err(error) => {
                return Err(error);
            },
        };
        let ghost second = self.graph();
        proof {
            lemma_run_stable(first, second, 0, leaves@, 0, base_size as int);
        }
        let entries = match self.patched_entries(
            &leaves,
            base_size,
            logical_size,
            patches,
            &patch_nodes,
        ) {
            Ok(entries) => entries,
            Err(error) => {
                return Err(error);
            },
        };
        let ghost made = entries@;
        let r = self.build_map_from_entries(entries, logical_size);
        proof {
            lemma_leaves_right_stable(second, self.graph(), leaves@, views, made);
            if let Ok(root) = r {
                if map_extents(self.graph(), root) <= MAX_SNAPSHOT_EXTENTS {
                    law_covering_map_has_its_digest(self.graph(), root, logical_size);
                }
            }
        }
        r
    }
}

/// The bytes of a patched file, one by one: those of the patch where one covers the place, else
/// those of the file before, and zeros behind its end.
pub proof fn law_patched_bytes(base: Seq<u8>, patches: Seq<PatchView>, size: u64, at: int)
    requires
        patches_fit(patches, size),
        !patches_overlap(patches),
        0 <= at < size,
    ensures
        ({
            let whole = overlaid(resized(base, size as nat), patches);
            &&& whole.len() == size
            &&& forall|k: int|
                0 <= k < patches.len() && (#[trigger] patches[k]).start <= at < patches[k].end
                    ==> whole[at] == patches[k].bytes[at - patches[k].start]
            &&& (forall|k: int|
                0 <= k < patches.len() ==> !((#[trigger] patches[k]).start <= at < patches[k].end))
                ==> whole[at] == if at < base.len() {
                base[at]
            } else {
                0
            }
        }),
{
    lemma_overlaid_at(resized(base, size as nat), patches, size, at);
}

/// One step of the walk stands for the right bytes.
proof fn lemma_step_bytes(
    first: Graph,
    graph: Graph,
    leaves: Seq<RangeMapEntry>,
    base_size: u64,
    patches: Seq<PatchView>,
    size: u64,
    cursor: u64,
    end: u64,
    leaf_at: int,
    patch_at: int,
    leaf: Option<RangeMapEntry>,
    patch: Option<(u64, NodeId)>,
)
    requires
        sound(first),
        extends(first, graph),
        run_ok(first, 0, leaves, 0, base_size as int),
        patches_fit(patches, size),
        !patches_overlap(patches),
        cursor < end <= size,
        0 <= leaf_at <= leaves.len(),
        leaf == if leaf_at < leaves.len() {
            Some(leaves[leaf_at])
        } else {
            None
        },
        if cursor < base_size {
            leaf_at < leaves.len() && leaves[leaf_at].logical_start <= cursor && end
                <= leaves[leaf_at].logical_start + leaves[leaf_at].logical_len
        } else {
            leaf_at == leaves.len()
        },
        0 <= patch_at <= patches.len(),
        patch_at < patches.len() ==> patches[patch_at].end > cursor,
        patch_at > 0 ==> patches[patch_at - 1].end <= cursor,
        match patch {
            Some((start, node)) => patch_at < patches.len() && start == patches[patch_at].start
                && start <= cursor && end <= patches[patch_at].end && graph.dom().contains(node)
                && graph[node] == NodeView::Content(patches[patch_at].bytes),
            None => patch_at < patches.len() ==> end <= patches[patch_at].start,
        },
    ensures
        step_bytes(graph, cursor, end, leaf, patch) == overlaid(
            resized(run_bytes(first, 0, leaves), size as nat),
            patches,
        ).subrange(cursor as int, end as int),
{
    let base = run_bytes(first, 0, leaves);
    let plain = resized(base, size as nat);
    let target = overlaid(plain, patches);
    let step = step_bytes(graph, cursor, end, leaf, patch);
    lemma_overlaid_len(plain, patches, size);
    lemma_run_len(first, 0, leaves, 0, base_size as int);
    if leaf_at < leaves.len() {
        lemma_run_prefix(first, 0, leaves, 0, base_size as int, leaf_at);
        assert(entry_ok(first, 0, leaves[leaf_at]));
        assert(first.dom().contains(leaves[leaf_at].child));
        lemma_entry_len(first, 0, leaves[leaf_at]);
    }
    if patch_at < patches.len() {
        assert(patch_fits(patches[patch_at], size));
    }
    assert forall|q: int| cursor <= q < end implies step[q - cursor] == #[trigger] target[q] by {
        lemma_overlaid_at(plain, patches, size, q);
        if patch is None {
            assert forall|k: int| 0 <= k < patches.len() implies !((
            #[trigger] patches[k]).start <= q < patches[k].end) by {
                if k < patch_at - 1 {
                    lemma_patches_sorted(patches, size, k, patch_at - 1);
                    assert(patch_fits(patches[patch_at - 1], size));
                } else if k > patch_at {
                    lemma_patches_sorted(patches, size, patch_at, k);
                }
            }
        } else {
            assert(patches[patch_at].start <= q < patches[patch_at].end);
        }
    }
    assert(step.len() == end - cursor);
    assert(step =~= target.subrange(cursor as int, end as int));
}

} // verus!
