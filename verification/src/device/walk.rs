//! How snapshots are read out of nodes that are looked up one by one.
use vstd::prelude::*;

use crate::bytes::zeros;
use crate::catalog::graph::{
    entry_content, entry_extents, entry_ok, extents, lemma_entry_len, lemma_map_run,
    lemma_run_front, lemma_run_len, lemma_run_step, node_sound, run_bytes, run_ok, sound, Graph,
};
use crate::catalog::ids::{CommitId, NodeId};
use crate::catalog::node::{
    logical_digest, span_of, NodeKind, NodeView, RangeMapEntry, SnapshotNode, MAX_SNAPSHOT_EXTENTS,
};
use crate::device::log::{lookup, FileDagStoreError, MAX_SNAPSHOT_READ_BYTES};

verus! {

/// Where nodes are looked up.
pub type Source = spec_fn(NodeId) -> Result<NodeView, FileDagStoreError>;

/// Looking nodes up in a log.
pub open spec fn source(contents: Seq<u8>, index: Map<NodeId, u64>) -> Source {
    |id: NodeId| lookup(contents, index, id)
}

/// The bytes that a walk found, and how many maps and leaves it has visited in all.
pub struct Walked {
    pub bytes: Seq<u8>,
    pub maps: nat,
    pub leaves: nat,
}

pub open spec fn max_of(a: u64, b: u64) -> u64 {
    if a >= b {
        a
    } else {
        b
    }
}

pub open spec fn min_of(a: u64, b: u64) -> u64 {
    if a <= b {
        a
    } else {
        b
    }
}

/// The start and length of a map's run; an empty map stands at the start.
pub open spec fn read_span(children: Seq<RangeMapEntry>) -> Option<(u64, u64)> {
    if children.len() == 0 {
        Some((0u64, 0u64))
    } else {
        span_of(children)
    }
}

/// Walks one entry of a map at `level` for the bytes from `from` to `to`.
pub open spec fn walk_entry(
    look: Source,
    level: u8,
    entry: RangeMapEntry,
    size: u64,
    from: u64,
    to: u64,
    maps: nat,
    leaves: nat,
) -> Result<Walked, FileDagStoreError>
    decreases level, 0nat, 0nat,
{
    let end = (entry.logical_start + entry.logical_len) as u64;
    let s = max_of(entry.logical_start, from);
    let t = min_of(end, to);
    if entry.logical_start + entry.logical_len > u64::MAX {
        Err(FileDagStoreError::InvalidSnapshot("entry span overflow"))
    } else if end <= from || entry.logical_start >= to {
        Ok(Walked { bytes: Seq::empty(), maps, leaves })
    } else {
        match entry.child_kind {
            NodeKind::RangeMap => if level == 0 {
                Err(FileDagStoreError::InvalidReference(entry.child))
            } else {
                match look(entry.child) {
                    Err(error) => Err(error),
                    Ok(NodeView::RangeMap { level: below, children }) => if below + 1 == level {
                        walk_map(
                            look,
                            below,
                            children,
                            size,
                            entry.logical_start,
                            end,
                            s,
                            t,
                            maps,
                            leaves,
                        )
                    } else {
                        Err(FileDagStoreError::InvalidReference(entry.child))
                    },
                    Ok(_) => Err(FileDagStoreError::InvalidReference(entry.child)),
                }
            },
            NodeKind::ZeroRun => if leaves + 1 > MAX_SNAPSHOT_EXTENTS {
                Err(FileDagStoreError::ResourceLimit("snapshot extents"))
            } else if level != 0 || entry.content_offset != 0 {
                Err(FileDagStoreError::InvalidReference(entry.child))
            } else {
                match look(entry.child) {
                    Err(error) => Err(error),
                    Ok(NodeView::ZeroRun(len)) => if len != entry.logical_len {
                        Err(FileDagStoreError::InvalidSnapshot("ZeroRun length mismatch"))
                    } else {
                        Ok(
                            Walked {
                                bytes: zeros((t - s) as nat),
                                maps,
                                leaves: leaves + 1,
                            },
                        )
                    },
                    Ok(_) => Err(FileDagStoreError::InvalidReference(entry.child)),
                }
            },
            NodeKind::Content => {
                let at = entry.content_offset + (s - entry.logical_start);
                if leaves + 1 > MAX_SNAPSHOT_EXTENTS {
                    Err(FileDagStoreError::ResourceLimit("snapshot extents"))
                } else if level != 0 {
                    Err(FileDagStoreError::InvalidReference(entry.child))
                } else if at > u64::MAX {
                    Err(FileDagStoreError::InvalidSnapshot("content offset overflow"))
                } else {
                    match look(entry.child) {
                        Err(error) => Err(error),
                        Ok(NodeView::Content(bytes)) => if at > usize::MAX {
                            Err(FileDagStoreError::ResourceLimit("content offset"))
                        } else if at + (t - s) > usize::MAX {
                            Err(FileDagStoreError::ResourceLimit("content range"))
                        } else if at + (t - s) > bytes.len() {
                            Err(
                                FileDagStoreError::InvalidSnapshot(
                                    "Content range out of bounds",
                                ),
                            )
                        } else {
                            Ok(
                                Walked {
                                    bytes: bytes.subrange(at, at + (t - s)),
                                    maps,
                                    leaves: leaves + 1,
                                },
                            )
                        },
                        Ok(_) => Err(FileDagStoreError::InvalidReference(entry.child)),
                    }
                }
            },
            _ => Err(FileDagStoreError::InvalidReference(entry.child)),
        }
    }
}

/// Walks entries of a map at `level` in order.
pub open spec fn walk_entries(
    look: Source,
    level: u8,
    entries: Seq<RangeMapEntry>,
    size: u64,
    from: u64,
    to: u64,
    maps: nat,
    leaves: nat,
) -> Result<Walked, FileDagStoreError>
    decreases level, entries.len(), 1nat,
{
    if entries.len() == 0 {
        Ok(Walked { bytes: Seq::empty(), maps, leaves })
    } else {
        match walk_entries(look, level, entries.drop_last(), size, from, to, maps, leaves) {
            Err(error) => Err(error),
            Ok(front) => match walk_entry(
                look,
                level,
                entries.last(),
                size,
                from,
                to,
                front.maps,
                front.leaves,
            ) {
                Err(error) => Err(error),
                Ok(last) => Ok(
                    Walked {
                        bytes: front.bytes + last.bytes,
                        maps: last.maps,
                        leaves: last.leaves,
                    },
                ),
            },
        }
    }
}

/// Walks a map that stands for the bytes from `start` to `end` of a snapshot of
/// `size` bytes, for the bytes from `from` to `to`.
pub open spec fn walk_map(
    look: Source,
    level: u8,
    children: Seq<RangeMapEntry>,
    size: u64,
    start: u64,
    end: u64,
    from: u64,
    to: u64,
    maps: nat,
    leaves: nat,
) -> Result<Walked, FileDagStoreError>
    decreases level, children.len() + 1, 1nat,
{
    if maps + 1 > MAX_SNAPSHOT_EXTENTS {
        Err(FileDagStoreError::ResourceLimit("range-map nodes"))
    } else {
        match read_span(children) {
            None => Err(FileDagStoreError::InvalidSnapshot("map span overflow")),
            Some(span) => if span != (start, (end - start) as u64) || span.0 + span.1 > size {
                Err(FileDagStoreError::InvalidSnapshot("map span is invalid"))
            } else {
                match walk_entries(look, level, children, size, from, to, maps + 1, leaves) {
                    Err(error) => Err(error),
                    Ok(walked) => if walked.bytes.len() != to - from {
                        Err(FileDagStoreError::InvalidSnapshot("range coverage mismatch"))
                    } else {
                        Ok(walked)
                    },
                }
            },
        }
    }
}

/// What is wrong with a map as the root of a snapshot of `size` bytes, if anything.
pub open spec fn root_problem(level: u8, children: Seq<RangeMapEntry>, size: u64) -> Option<
    FileDagStoreError,
> {
    if size == 0 {
        if level != 0 || children.len() != 0 {
            Some(FileDagStoreError::InvalidSnapshot("non-canonical empty root"))
        } else {
            None
        }
    } else {
        match read_span(children) {
            None => Some(FileDagStoreError::InvalidSnapshot("map span overflow")),
            Some(span) => if span != (0u64, size) {
                Some(FileDagStoreError::InvalidSnapshot("root does not cover snapshot"))
            } else {
                None
            },
        }
    }
}

/// The end of the window that starts at `offset`.
pub open spec fn window_end(offset: u64, size: u64) -> u64 {
    if offset + MAX_SNAPSHOT_READ_BYTES < size {
        (offset + MAX_SNAPSHOT_READ_BYTES) as u64
    } else {
        size
    }
}

/// Walks a whole snapshot from `offset` on, window by window.
pub open spec fn walk_windows(
    look: Source,
    level: u8,
    children: Seq<RangeMapEntry>,
    size: u64,
    offset: u64,
    maps: nat,
    leaves: nat,
) -> Result<Walked, FileDagStoreError>
    decreases size - offset,
{
    if offset >= size {
        Ok(Walked { bytes: Seq::empty(), maps, leaves })
    } else {
        let end = window_end(offset, size);
        match walk_map(look, level, children, size, 0, size, offset, end, maps, leaves) {
            Err(error) => Err(error),
            Ok(here) => match walk_windows(
                look,
                level,
                children,
                size,
                end,
                here.maps,
                here.leaves,
            ) {
                Err(error) => Err(error),
                Ok(rest) => Ok(
                    Walked {
                        bytes: here.bytes + rest.bytes,
                        maps: rest.maps,
                        leaves: rest.leaves,
                    },
                ),
            },
        }
    }
}

/// The root map of a snapshot.
pub open spec fn root_of(look: Source, snapshot: SnapshotNode) -> Result<
    (u8, Seq<RangeMapEntry>),
    FileDagStoreError,
> {
    match look(snapshot.range_map_root) {
        Err(error) => Err(error),
        Ok(NodeView::RangeMap { level, children }) => match root_problem(
            level,
            children,
            snapshot.logical_size,
        ) {
            Some(error) => Err(error),
            None => Ok((level, children)),
        },
        Ok(_) => Err(FileDagStoreError::InvalidReference(snapshot.range_map_root)),
    }
}

/// What is wrong with a snapshot's contents, if anything.
pub open spec fn digest_problem(look: Source, snapshot: SnapshotNode) -> Option<
    FileDagStoreError,
> {
    match root_of(look, snapshot) {
        Err(error) => Some(error),
        Ok((level, children)) => match walk_windows(
            look,
            level,
            children,
            snapshot.logical_size,
            0,
            0,
            0,
        ) {
            Err(error) => Some(error),
            Ok(walked) => if logical_digest(walked.bytes) != snapshot.content_digest@ {
                Some(FileDagStoreError::InvalidSnapshot("content digest mismatch"))
            } else {
                None
            },
        },
    }
}

/// The snapshot of a commit.
pub open spec fn snapshot_of(look: Source, commit_id: CommitId) -> Result<
    (NodeId, SnapshotNode),
    FileDagStoreError,
> {
    match look(commit_id) {
        Err(error) => Err(error),
        Ok(NodeView::Commit(commit)) => match look(commit.snapshot) {
            Err(error) => Err(error),
            Ok(NodeView::Snapshot(snapshot)) => Ok((commit.snapshot, snapshot)),
            Ok(_) => Err(FileDagStoreError::InvalidReference(commit.snapshot)),
        },
        Ok(_) => Err(FileDagStoreError::InvalidReference(commit_id)),
    }
}

/// Whether a snapshot was noted as found right only where it is the commit's and its digest
/// is right, and was noted where the request succeeded (`done`).
pub open spec fn checked(
    look: Source,
    commit_id: CommitId,
    before: Set<NodeId>,
    after: Set<NodeId>,
    done: bool,
) -> bool {
    ||| after == before && (done ==> (snapshot_of(look, commit_id) matches Ok((snapshot_id, _))
        && before.contains(snapshot_id)))
    ||| snapshot_of(look, commit_id) matches Ok((snapshot_id, snapshot)) && digest_problem(
        look,
        snapshot,
    ) is None && after == before.insert(snapshot_id)
}

/// What reading a range of a commit's snapshot gives. The contents of a snapshot
/// are checked against its digest unless that was done before.
pub open spec fn read_result(
    look: Source,
    validated: Set<NodeId>,
    commit_id: CommitId,
    start: u64,
    end: u64,
) -> Result<Seq<u8>, FileDagStoreError> {
    if start > end {
        Err(FileDagStoreError::RangeOutOfBounds { start, end, size: 0 })
    } else {
        match snapshot_of(look, commit_id) {
            Err(error) => Err(error),
            Ok((snapshot_id, snapshot)) => if end > snapshot.logical_size {
                Err(
                    FileDagStoreError::RangeOutOfBounds {
                        start,
                        end,
                        size: snapshot.logical_size,
                    },
                )
            } else if end - start > MAX_SNAPSHOT_READ_BYTES {
                Err(FileDagStoreError::ResourceLimit("snapshot range length"))
            } else if !validated.contains(snapshot_id) && digest_problem(
                look,
                snapshot,
            ) is Some {
                Err(digest_problem(look, snapshot)->0)
            } else {
                match root_of(look, snapshot) {
                    Err(error) => Err(error),
                    Ok((level, children)) => if start == end {
                        Ok(Seq::empty())
                    } else {
                        match walk_map(
                            look,
                            level,
                            children,
                            snapshot.logical_size,
                            0,
                            snapshot.logical_size,
                            start,
                            end,
                            0,
                            0,
                        ) {
                            Err(error) => Err(error),
                            Ok(walked) => Ok(walked.bytes),
                        }
                    },
                }
            },
        }
    }
}

/// Every node of the graph is found as it is.
pub open spec fn finds(look: Source, graph: Graph) -> bool {
    forall|id: NodeId| #[trigger]
        graph.dom().contains(id) ==> look(id) == Ok::<NodeView, FileDagStoreError>(graph[id])
}

/// How many maps the entries of a map at `level` lead to.
pub open spec fn maps_of(graph: Graph, level: u8, entries: Seq<RangeMapEntry>) -> nat
    decreases level, entries.len(),
{
    if entries.len() == 0 {
        0
    } else {
        maps_of(graph, level, entries.drop_last()) + match graph[entries.last().child] {
            NodeView::RangeMap { level: below, children } => if below < level {
                1 + maps_of(graph, below, children)
            } else {
                0
            },
            _ => 0,
        }
    }
}

pub open spec fn entry_maps(graph: Graph, level: u8, entry: RangeMapEntry) -> nat {
    match graph[entry.child] {
        NodeView::RangeMap { level: below, children } => if below < level {
            1 + maps_of(graph, below, children)
        } else {
            0
        },
        _ => 0,
    }
}

/// The part of a run's bytes, which start at `start`, between `from` and `to`.
pub open spec fn part_of(bytes: Seq<u8>, start: int, end: int, from: u64, to: u64) -> Seq<u8> {
    let s = if start >= from {
        start
    } else {
        from as int
    };
    let t = if end <= to {
        end
    } else {
        to as int
    };
    if s < t {
        bytes.subrange(s - start, t - start)
    } else {
        Seq::empty()
    }
}

/// A walk over one sound entry finds its bytes.
pub proof fn lemma_walk_entry(
    look: Source,
    graph: Graph,
    level: u8,
    entry: RangeMapEntry,
    size: u64,
    from: u64,
    to: u64,
    maps: nat,
    leaves: nat,
)
    requires
        sound(graph),
        finds(look, graph),
        entry_ok(graph, level, entry),
        entry.logical_start + entry.logical_len <= size,
        from <= to,
        maps + entry_maps(graph, level, entry) <= MAX_SNAPSHOT_EXTENTS,
        leaves + entry_extents(graph, level, entry) <= MAX_SNAPSHOT_EXTENTS,
    ensures
        walk_entry(look, level, entry, size, from, to, maps, leaves) matches Ok(walked)
            && walked.bytes == part_of(
            entry_content(graph, level, entry),
            entry.logical_start as int,
            entry.logical_start + entry.logical_len,
            from,
            to,
        ) && maps <= walked.maps <= maps + entry_maps(graph, level, entry) && leaves
            <= walked.leaves <= leaves + entry_extents(graph, level, entry),
    decreases level, 0nat, 0nat,
{
    assert(graph.dom().contains(entry.child));
    assert(node_sound(graph, entry.child));
    lemma_entry_len(graph, level, entry);
    let end = entry.logical_start + entry.logical_len;
    let s = max_of(entry.logical_start, from);
    let t = min_of(end as u64, to);
    let content = entry_content(graph, level, entry);
    if end <= from || entry.logical_start >= to {
    } else {
        match graph[entry.child] {
            NodeView::RangeMap { level: below, children } => {
                lemma_map_run(graph, below, children);
                lemma_run_len(
                    graph,
                    below,
                    children,
                    children[0].logical_start as int,
                    children.last().logical_start + children.last().logical_len,
                );
                lemma_walk_map(
                    look,
                    graph,
                    below,
                    children,
                    size,
                    entry.logical_start,
                    end as u64,
                    s,
                    t,
                    maps,
                    leaves,
                );
                assert(part_of(content, entry.logical_start as int, end, s, t) =~= part_of(
                    content,
                    entry.logical_start as int,
                    end,
                    from,
                    to,
                ));
            },
            NodeView::ZeroRun(len) => {
                assert(zeros((t - s) as nat) =~= part_of(
                    content,
                    entry.logical_start as int,
                    end,
                    from,
                    to,
                ));
            },
            NodeView::Content(bytes) => {
                let at = entry.content_offset + (s - entry.logical_start);
                assert(bytes.subrange(at, at + (t - s)) =~= part_of(
                    content,
                    entry.logical_start as int,
                    end,
                    from,
                    to,
                ));
            },
            _ => {},
        }
    }
}

/// The part of two runs one after the other that lies in a range.
proof fn lemma_part_joins(
    first: Seq<u8>,
    second: Seq<u8>,
    start: int,
    middle: int,
    end: int,
    from: u64,
    to: u64,
)
    requires
        start <= middle <= end,
        first.len() == middle - start,
        second.len() == end - middle,
        from <= to,
    ensures
        part_of(first + second, start, end, from, to) == part_of(first, start, middle, from, to)
            + part_of(second, middle, end, from, to),
{
    assert(part_of(first + second, start, end, from, to) =~= part_of(
        first,
        start,
        middle,
        from,
        to,
    ) + part_of(second, middle, end, from, to));
}

/// A walk over a sound run finds its bytes.
#[verifier::rlimit(30)]
pub proof fn lemma_walk_entries(
    look: Source,
    graph: Graph,
    level: u8,
    entries: Seq<RangeMapEntry>,
    start: int,
    end: int,
    size: u64,
    from: u64,
    to: u64,
    maps: nat,
    leaves: nat,
)
    requires
        sound(graph),
        finds(look, graph),
        run_ok(graph, level, entries, start, end),
        end <= size,
        from <= to,
        maps + maps_of(graph, level, entries) <= MAX_SNAPSHOT_EXTENTS,
        leaves + extents(graph, level, entries) <= MAX_SNAPSHOT_EXTENTS,
    ensures
        walk_entries(look, level, entries, size, from, to, maps, leaves) matches Ok(walked)
            && walked.bytes == part_of(
            run_bytes(graph, level, entries),
            start,
            end,
            from,
            to,
        ) && maps <= walked.maps <= maps + maps_of(graph, level, entries) && leaves
            <= walked.leaves <= leaves + extents(graph, level, entries),
    decreases level, entries.len(), 1nat,
{
    if entries.len() > 0 {
        let last = entries.last();
        let front = entries.drop_last();
        assert(entry_ok(graph, level, entries[entries.len() - 1]));
        lemma_run_front(graph, level, entries, start, end);
        lemma_run_step(graph, level, entries);
        lemma_run_len(graph, level, entries, start, end);
        lemma_run_len(graph, level, front, start, last.logical_start as int);
        lemma_entry_len(graph, level, last);
        lemma_walk_entries(
            look,
            graph,
            level,
            front,
            start,
            last.logical_start as int,
            size,
            from,
            to,
            maps,
            leaves,
        );
        let walked = walk_entries(look, level, front, size, from, to, maps, leaves)->Ok_0;
        lemma_walk_entry(
            look,
            graph,
            level,
            last,
            size,
            from,
            to,
            walked.maps,
            walked.leaves,
        );
        lemma_part_joins(
            run_bytes(graph, level, front),
            entry_content(graph, level, last),
            start,
            last.logical_start as int,
            end,
            from,
            to,
        );
    }
}

/// A walk over a sound map finds its bytes.
pub proof fn lemma_walk_map(
    look: Source,
    graph: Graph,
    level: u8,
    children: Seq<RangeMapEntry>,
    size: u64,
    start: u64,
    end: u64,
    from: u64,
    to: u64,
    maps: nat,
    leaves: nat,
)
    requires
        sound(graph),
        finds(look, graph),
        run_ok(graph, level, children, start as int, end as int),
        children.len() > 0,
        end <= size,
        start <= from <= to <= end,
        maps + 1 + maps_of(graph, level, children) <= MAX_SNAPSHOT_EXTENTS,
        leaves + extents(graph, level, children) <= MAX_SNAPSHOT_EXTENTS,
    ensures
        walk_map(look, level, children, size, start, end, from, to, maps, leaves) matches Ok(
            walked,
        ) && walked.bytes == part_of(
            run_bytes(graph, level, children),
            start as int,
            end as int,
            from,
            to,
        ) && maps <= walked.maps <= maps + 1 + maps_of(graph, level, children) && leaves
            <= walked.leaves <= leaves + extents(graph, level, children),
    decreases level, children.len() + 1, 1nat,
{
    assert(entry_ok(graph, level, children[children.len() - 1]));
    lemma_run_len(graph, level, children, start as int, end as int);
    lemma_walk_entries(
        look,
        graph,
        level,
        children,
        start as int,
        end as int,
        size,
        from,
        to,
        maps + 1,
        leaves,
    );
}

/// Reading a range of a snapshot that is sound in the graph gives exactly those
/// bytes, as long as its maps and leaves stay within the budget of one read.
pub proof fn law_sound_snapshot_reads_back(
    look: Source,
    graph: Graph,
    validated: Set<NodeId>,
    commit_id: CommitId,
    snapshot_id: NodeId,
    snapshot: SnapshotNode,
    level: u8,
    children: Seq<RangeMapEntry>,
    start: u64,
    end: u64,
)
    requires
        sound(graph),
        finds(look, graph),
        snapshot_of(look, commit_id) == Ok::<(NodeId, SnapshotNode), FileDagStoreError>(
            (snapshot_id, snapshot),
        ),
        validated.contains(snapshot_id),
        root_of(look, snapshot) == Ok::<(u8, Seq<RangeMapEntry>), FileDagStoreError>(
            (level, children),
        ),
        run_ok(graph, level, children, 0, snapshot.logical_size as int),
        start <= end <= snapshot.logical_size,
        end - start <= MAX_SNAPSHOT_READ_BYTES,
        1 + maps_of(graph, level, children) <= MAX_SNAPSHOT_EXTENTS,
        extents(graph, level, children) <= MAX_SNAPSHOT_EXTENTS,
    ensures
        read_result(look, validated, commit_id, start, end) == Ok::<Seq<u8>, FileDagStoreError>(
            run_bytes(graph, level, children).subrange(start as int, end as int),
        ),
{
    lemma_run_len(graph, level, children, 0, snapshot.logical_size as int);
    if start < end {
        lemma_walk_map(
            look,
            graph,
            level,
            children,
            snapshot.logical_size,
            0,
            snapshot.logical_size,
            start,
            end,
            0,
            0,
        );
    } else {
        assert(run_bytes(graph, level, children).subrange(start as int, end as int)
            =~= Seq::empty());
    }
}

} // verus!
