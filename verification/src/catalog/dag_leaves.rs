//! Where the leaves of a patched snapshot come from.
use vstd::prelude::*;

use crate::catalog::dag_patch::{
    lemma_patches_sorted, patch_fits, patches_fit, patches_overlap, PatchView,
};
use crate::catalog::dag_read::snapshot_at;
use crate::catalog::graph::{
    entry_leaves, entry_ok, extends, extents, leaves_of, lemma_map_run, lemma_run_front,
    lemma_run_step, map_extents, node_sound, run_ok, sound, Graph,
};
use crate::catalog::ids::NodeId;
use crate::catalog::node::{NodeKind, NodeView, RangeMapEntry};

verus! {

/// The leaves under a range map, in order.
pub open spec fn map_leaves(graph: Graph, root: NodeId) -> Seq<RangeMapEntry> {
    match graph[root] {
        NodeView::RangeMap { level, children } => leaves_of(graph, level, children),
        _ => Seq::empty(),
    }
}

/// The leaves that are patched.
pub open spec fn base_leaves(graph: Graph, base: Option<NodeId>) -> Seq<RangeMapEntry> {
    match base {
        Some(id) => match snapshot_at(graph, id) {
            Some(snapshot) => map_leaves(graph, snapshot.range_map_root),
            None => Seq::empty(),
        },
        None => Seq::empty(),
    }
}

/// How many leaves are patched.
pub open spec fn base_extents(graph: Graph, base: Option<NodeId>) -> nat {
    match base {
        Some(id) => match snapshot_at(graph, id) {
            Some(snapshot) => map_extents(graph, snapshot.range_map_root),
            None => 0,
        },
        None => 0,
    }
}

/// Where an entry ends.
pub open spec fn end_of(entry: RangeMapEntry) -> int {
    entry.logical_start + entry.logical_len
}

/// Whether a place is where a patch or an old leaf begins or ends.
pub open spec fn is_edge(leaves: Seq<RangeMapEntry>, patches: Seq<PatchView>, at: int) -> bool {
    ||| at == 0
    ||| exists|k: int| 0 <= k < patches.len() && (#[trigger] patches[k]).start == at
    ||| exists|k: int| 0 <= k < patches.len() && (#[trigger] patches[k]).end == at
    ||| exists|k: int| 0 <= k < leaves.len() && end_of(#[trigger] leaves[k]) == at
}

/// Whether the entry lies in the patch and refers to the patch's content.
pub open spec fn from_patch(graph: Graph, patch: PatchView, entry: RangeMapEntry) -> bool {
    &&& patch.start <= entry.logical_start
    &&& end_of(entry) <= patch.end
    &&& entry.child_kind == NodeKind::Content
    &&& entry.content_offset == entry.logical_start - patch.start
    &&& graph.dom().contains(entry.child)
    &&& graph[entry.child] == NodeView::Content(patch.bytes)
}

/// Whether the entry lies in the old leaf and keeps its node.
pub open spec fn from_leaf(leaf: RangeMapEntry, entry: RangeMapEntry) -> bool {
    &&& leaf.logical_start <= entry.logical_start
    &&& end_of(entry) <= end_of(leaf)
    &&& leaf.child_kind == NodeKind::Content
    &&& entry.child_kind == NodeKind::Content
    &&& entry.child == leaf.child
    &&& entry.content_offset == leaf.content_offset + (entry.logical_start - leaf.logical_start)
}

/// Whether the patches leave the entry's bytes alone.
pub open spec fn unpatched(patches: Seq<PatchView>, entry: RangeMapEntry) -> bool {
    forall|k: int|
        0 <= k < patches.len() ==> (#[trigger] patches[k]).end <= entry.logical_start || end_of(
            entry,
        ) <= patches[k].start
}

/// Whether no content of an old leaf stands where the entry does.
pub open spec fn uncovered(leaves: Seq<RangeMapEntry>, entry: RangeMapEntry) -> bool {
    forall|k: int|
        0 <= k < leaves.len() && (#[trigger] leaves[k]).child_kind == NodeKind::Content ==> end_of(
            leaves[k],
        ) <= entry.logical_start || end_of(entry) <= leaves[k].logical_start
}

/// Whether a leaf of the new map is the part of a patch, or the part of an old leaf that
/// stays visible, kept by its identifier, or else zeros, and begins where it must.
pub open spec fn leaf_right(
    graph: Graph,
    leaves: Seq<RangeMapEntry>,
    patches: Seq<PatchView>,
    entry: RangeMapEntry,
) -> bool {
    &&& is_edge(leaves, patches, entry.logical_start as int)
    &&& {
        ||| exists|k: int| 0 <= k < patches.len() && from_patch(graph, #[trigger] patches[k], entry)
        ||| unpatched(patches, entry) && exists|k: int|
            0 <= k < leaves.len() && from_leaf(#[trigger] leaves[k], entry)
        ||| unpatched(patches, entry) && uncovered(leaves, entry) && entry.child_kind
            == NodeKind::ZeroRun
    }
}

/// Whether every leaf of the new map is.
pub open spec fn leaves_right(
    graph: Graph,
    leaves: Seq<RangeMapEntry>,
    patches: Seq<PatchView>,
    entries: Seq<RangeMapEntry>,
) -> bool {
    forall|i: int|
        0 <= i < entries.len() ==> leaf_right(graph, leaves, patches, #[trigger] entries[i])
}

pub proof fn lemma_leaf_stable(
    graph: Graph,
    larger: Graph,
    leaves: Seq<RangeMapEntry>,
    patches: Seq<PatchView>,
    entry: RangeMapEntry,
)
    requires
        extends(graph, larger),
        leaf_right(graph, leaves, patches, entry),
    ensures
        leaf_right(larger, leaves, patches, entry),
{
    if exists|k: int| 0 <= k < patches.len() && from_patch(graph, #[trigger] patches[k], entry) {
        let k = choose|k: int|
            0 <= k < patches.len() && from_patch(graph, #[trigger] patches[k], entry);
        assert(from_patch(larger, patches[k], entry));
    }
}

pub proof fn lemma_leaves_right_stable(
    graph: Graph,
    larger: Graph,
    leaves: Seq<RangeMapEntry>,
    patches: Seq<PatchView>,
    entries: Seq<RangeMapEntry>,
)
    requires
        extends(graph, larger),
        leaves_right(graph, leaves, patches, entries),
    ensures
        leaves_right(larger, leaves, patches, entries),
{
    assert forall|i: int| 0 <= i < entries.len() implies leaf_right(
        larger,
        leaves,
        patches,
        #[trigger] entries[i],
    ) by {
        lemma_leaf_stable(graph, larger, leaves, patches, entries[i]);
    }
}

pub proof fn lemma_leaves_concat(
    graph: Graph,
    level: u8,
    a: Seq<RangeMapEntry>,
    b: Seq<RangeMapEntry>,
)
    ensures
        leaves_of(graph, level, a + b) == leaves_of(graph, level, a) + leaves_of(graph, level, b),
    decreases b.len(),
{
    if b.len() == 0 {
        assert(a + b =~= a);
        assert(leaves_of(graph, level, a) + leaves_of(graph, level, b) =~= leaves_of(
            graph,
            level,
            a,
        ));
    } else {
        lemma_leaves_concat(graph, level, a, b.drop_last());
        assert((a + b).drop_last() =~= a + b.drop_last());
        lemma_run_step(graph, level, a + b);
        lemma_run_step(graph, level, b);
        assert(leaves_of(graph, level, a + b) =~= leaves_of(graph, level, a) + leaves_of(
            graph,
            level,
            b,
        ));
    }
}

/// The leaves of a run stay the same when nodes are added.
pub proof fn lemma_leaves_stable(
    graph: Graph,
    larger: Graph,
    level: u8,
    entries: Seq<RangeMapEntry>,
    start: int,
    end: int,
)
    requires
        sound(graph),
        extends(graph, larger),
        run_ok(graph, level, entries, start, end),
    ensures
        leaves_of(larger, level, entries) == leaves_of(graph, level, entries),
    decreases level, entries.len(),
{
    if entries.len() > 0 {
        let last = entries.last();
        assert(entry_ok(graph, level, entries[entries.len() - 1]));
        lemma_run_front(graph, level, entries, start, end);
        lemma_leaves_stable(
            graph,
            larger,
            level,
            entries.drop_last(),
            start,
            last.logical_start as int,
        );
        match graph[last.child] {
            NodeView::RangeMap { level: below, children } => {
                assert(node_sound(graph, last.child));
                lemma_map_run(graph, below, children);
                lemma_leaves_stable(
                    graph,
                    larger,
                    below,
                    children,
                    children[0].logical_start as int,
                    children.last().logical_start + children.last().logical_len,
                );
            },
            _ => {},
        }
    }
}

/// A run leads to as many leaves as it has extents.
pub proof fn lemma_leaves_count(
    graph: Graph,
    level: u8,
    entries: Seq<RangeMapEntry>,
    start: int,
    end: int,
)
    requires
        sound(graph),
        run_ok(graph, level, entries, start, end),
    ensures
        leaves_of(graph, level, entries).len() == extents(graph, level, entries),
    decreases level, entries.len(),
{
    if entries.len() > 0 {
        let last = entries.last();
        assert(entry_ok(graph, level, entries[entries.len() - 1]));
        lemma_run_front(graph, level, entries, start, end);
        lemma_leaves_count(
            graph,
            level,
            entries.drop_last(),
            start,
            last.logical_start as int,
        );
        match graph[last.child] {
            NodeView::RangeMap { level: below, children } => {
                assert(node_sound(graph, last.child));
                lemma_map_run(graph, below, children);
                lemma_leaves_count(
                    graph,
                    below,
                    children,
                    children[0].logical_start as int,
                    children.last().logical_start + children.last().logical_len,
                );
            },
            _ => {},
        }
    }
}

/// A run of leaves leads to itself.
pub proof fn lemma_leaves_flat(graph: Graph, entries: Seq<RangeMapEntry>, start: int, end: int)
    requires
        run_ok(graph, 0, entries, start, end),
    ensures
        leaves_of(graph, 0, entries) == entries,
    decreases entries.len(),
{
    if entries.len() > 0 {
        let last = entries.last();
        assert(entry_ok(graph, 0, entries[entries.len() - 1]));
        lemma_run_front(graph, 0, entries, start, end);
        lemma_leaves_flat(graph, entries.drop_last(), start, last.logical_start as int);
        assert(entries.drop_last() + seq![last] =~= entries);
    } else {
        assert(leaves_of(graph, 0, entries) =~= entries);
    }
}

/// The leaves of a run stand in order.
pub proof fn lemma_leaves_sorted(
    graph: Graph,
    leaves: Seq<RangeMapEntry>,
    start: int,
    end: int,
    i: int,
    j: int,
)
    requires
        run_ok(graph, 0, leaves, start, end),
        0 <= i < j < leaves.len(),
    ensures
        end_of(leaves[i]) <= leaves[j].logical_start,
    decreases j - i,
{
    assert(leaves[j].logical_start == end_of(leaves[j - 1]));
    if i < j - 1 {
        lemma_leaves_sorted(graph, leaves, start, end, i, j - 1);
        assert(entry_ok(graph, 0, leaves[j - 1]));
    }
}

/// Every leaf of a run ends within it.
proof fn lemma_leaf_within(graph: Graph, leaves: Seq<RangeMapEntry>, start: int, end: int, i: int)
    requires
        run_ok(graph, 0, leaves, start, end),
        0 <= i < leaves.len(),
    ensures
        end_of(leaves[i]) <= end,
{
    let last = leaves.len() - 1;
    if i < last {
        lemma_leaves_sorted(graph, leaves, start, end, i, last);
    }
    assert(leaves.last() == leaves[last]);
}

/// One step of the walk gives a leaf that is right.
pub proof fn lemma_step_leaf(
    graph: Graph,
    leaves: Seq<RangeMapEntry>,
    base_size: u64,
    patches: Seq<PatchView>,
    size: u64,
    leaf_at: int,
    patch_at: int,
    patched: bool,
    entry: RangeMapEntry,
)
    requires
        run_ok(graph, 0, leaves, 0, base_size as int),
        patches_fit(patches, size),
        !patches_overlap(patches),
        is_edge(leaves, patches, entry.logical_start as int),
        0 <= leaf_at <= leaves.len(),
        if entry.logical_start < base_size {
            leaf_at < leaves.len() && leaves[leaf_at].logical_start <= entry.logical_start
                && end_of(entry) <= end_of(leaves[leaf_at])
        } else {
            leaf_at == leaves.len()
        },
        0 <= patch_at <= patches.len(),
        patch_at > 0 ==> patches[patch_at - 1].end <= entry.logical_start,
        if patched {
            patch_at < patches.len() && from_patch(graph, patches[patch_at], entry)
        } else {
            (patch_at < patches.len() ==> end_of(entry) <= patches[patch_at].start) && if leaf_at
                < leaves.len() && leaves[leaf_at].child_kind != NodeKind::ZeroRun {
                from_leaf(leaves[leaf_at], entry)
            } else {
                entry.child_kind == NodeKind::ZeroRun
            }
        },
    ensures
        leaf_right(graph, leaves, patches, entry),
{
    if !patched {
        assert forall|k: int| 0 <= k < patches.len() implies (#[trigger] patches[k]).end
            <= entry.logical_start || end_of(entry) <= patches[k].start by {
            if k < patch_at - 1 {
                lemma_patches_sorted(patches, size, k, patch_at - 1);
                assert(patch_fits(patches[patch_at - 1], size));
            } else if k > patch_at {
                lemma_patches_sorted(patches, size, patch_at, k);
                assert(patch_fits(patches[patch_at], size));
            }
        }
        if !(leaf_at < leaves.len() && leaves[leaf_at].child_kind != NodeKind::ZeroRun) {
            assert forall|k: int|
                0 <= k < leaves.len() && (#[trigger] leaves[k]).child_kind
                    == NodeKind::Content implies end_of(leaves[k]) <= entry.logical_start || end_of(
                entry,
            ) <= leaves[k].logical_start by {
                if leaf_at == leaves.len() {
                    lemma_leaf_within(graph, leaves, 0, base_size as int, k);
                } else if k < leaf_at {
                    lemma_leaves_sorted(graph, leaves, 0, base_size as int, k, leaf_at);
                } else if k > leaf_at {
                    lemma_leaves_sorted(graph, leaves, 0, base_size as int, leaf_at, k);
                }
            }
        }
    }
}

/// The leaves of a map's part and of the map over it.
pub proof fn lemma_group_leaves(
    graph: Graph,
    larger: Graph,
    level: u8,
    part: Seq<RangeMapEntry>,
    start: int,
    end: int,
    entry: RangeMapEntry,
)
    requires
        sound(graph),
        extends(graph, larger),
        run_ok(graph, level, part, start, end),
        level < u8::MAX,
        larger[entry.child] == (NodeView::RangeMap { level, children: part }),
    ensures
        entry_leaves(larger, (level + 1) as u8, entry) == leaves_of(graph, level, part),
{
    lemma_leaves_stable(graph, larger, level, part, start, end);
}

} // verus!
