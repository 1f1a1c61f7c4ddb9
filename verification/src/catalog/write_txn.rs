//! A write that is gathered and then committed as the next version of its file.
use vstd::prelude::*;
use std::ops::Range;

use crate::catalog::dag::{Dag, DagOperationBindingState, OperationBinding};
use crate::catalog::dag_bind::{bind_problem, commit_at, receipt_at, with_tombstone};
use crate::catalog::dag_leaves::{base_extents, base_leaves, leaves_right, map_leaves};
use crate::catalog::dag_patch::{
    base_bytes, collides, covers, overlaid, patch_problem, patch_views, resized, PatchView,
};
use crate::catalog::dag_read::{snapshot_at, snapshot_bytes};
use crate::catalog::graph::{
    extends, id_of, lemma_map_stable, map_bytes, map_extents, node_sound, ref_problem,
    reference_problem, snapshot_problem, Graph,
};
use crate::catalog::ids::{CommitId, FileId, NodeId, OperationId, PrincipalId, VersionId};
use crate::catalog::node::{
    CommitNode, DagError, Node, NodeKind, NodeView, SnapshotNode, MAX_LOGICAL_FILE_SIZE,
    MAX_SNAPSHOT_EXTENTS,
};
use crate::catalog::reference_store::{
    dag_failure, shown_version, NativeError, SnapshotHandle, Store, Version, MAX_RANGE_WRITE_BYTES,
};
use crate::catalog::rules::{
    abort_outcome, bind_outcome, commit_named, file_problem, permit_problem, publish_outcome,
    register_outcome, Bindings, CatalogView,
};
use crate::catalog::types::{Capability, CatalogError, FenceToken, Head};
use crate::first::first_some;

verus! {

/// The most bytes that a write can gather.
pub const MAX_PATCH_BYTES_IN_FLIGHT: usize = 67_108_864;

/// The most ranges that a write can gather.
pub const MAX_PENDING_RANGES: usize = 1024;

#[derive(Clone, Copy, Debug, PartialEq, Eq, Structural)]
pub enum TxnState {
    Open,
    Committed,
    Aborted,
}

pub struct RangePatch {
    pub start: u64,
    pub end: u64,
    pub bytes: Vec<u8>,
}

impl View for RangePatch {
    type V = PatchView;

    open spec fn view(&self) -> PatchView {
        PatchView { start: self.start, end: self.end, bytes: self.bytes@ }
    }
}

pub struct WriteTxn {
    pub file: FileId,
    pub expected_head: Head,
    pub operation_id: OperationId,
    pub base_snapshot: Option<NodeId>,
    pub base_len: u64,
    pub logical_size: u64,
    pub patches: Vec<RangePatch>,
    pub fence: FenceToken,
    pub state: TxnState,
}

pub open spec fn views_of(patches: Seq<RangePatch>) -> Seq<PatchView> {
    patches.map_values(|patch: RangePatch| patch@)
}

/// How many bytes the patches carry.
pub open spec fn total_bytes(patches: Seq<PatchView>) -> nat
    decreases patches.len(),
{
    if patches.len() == 0 {
        0
    } else {
        total_bytes(patches.drop_last()) + patches.last().bytes.len()
    }
}

/// Patches in order: each holds its range, which is not empty, lies within the size
/// and begins where the one before has ended or later.
pub open spec fn in_order(patches: Seq<PatchView>, size: u64) -> bool {
    &&& forall|i: int|
        0 <= i < patches.len() ==> {
            let patch = #[trigger] patches[i];
            patch.start < patch.end <= size && patch.bytes.len() == patch.end - patch.start
                && patch.bytes.len() <= MAX_RANGE_WRITE_BYTES
        }
    &&& forall|i: int, j: int|
        #![trigger patches[i], patches[j]]
        0 <= i < j < patches.len() ==> patches[i].end <= patches[j].start
}

/// Whether a range reaches into one of the patches.
pub open spec fn reaches_into(patches: Seq<PatchView>, start: u64, end: u64) -> bool {
    exists|i: int|
        0 <= i < patches.len() && (#[trigger] patches[i]).start < end && start < patches[i].end
}

/// Where a patch that begins at `start` goes: behind those that begin before.
pub open spec fn slot(patches: Seq<PatchView>, start: u64) -> int
    decreases patches.len(),
{
    if patches.len() == 0 || patches.last().start < start {
        patches.len() as int
    } else {
        slot(patches.drop_last(), start)
    }
}

/// The patches with everything from `size` on cut away.
pub open spec fn cut(patches: Seq<PatchView>, size: u64) -> Seq<PatchView>
    decreases patches.len(),
{
    if patches.len() == 0 {
        Seq::empty()
    } else {
        let patch = patches.last();
        let rest = cut(patches.drop_last(), size);
        if patch.start >= size {
            rest
        } else if patch.end > size {
            rest.push(
                PatchView {
                    start: patch.start,
                    end: size,
                    bytes: patch.bytes.take(size - patch.start),
                },
            )
        } else {
            rest.push(patch)
        }
    }
}

/// The parent of the commit to be made: that of the version which the write began on.
pub open spec fn parent_of(
    v: CatalogView,
    actor: PrincipalId,
    file: FileId,
    version: Option<VersionId>,
) -> Option<CommitId> {
    if file_problem(v, actor, file, Capability::Read) is None {
        commit_named(v, file, version)
    } else {
        None
    }
}

/// The bytes that a write leads to: those of its base, cut or filled up to its size,
/// with its patches on them.
pub open spec fn written_bytes(
    graph: Graph,
    base: Option<NodeId>,
    size: u64,
    patches: Seq<PatchView>,
) -> Seq<u8> {
    overlaid(resized(base_bytes(graph, base), size as nat), patches)
}

/// Whether the commit holds the given bytes and has the given parent.
pub open spec fn commit_holds(
    graph: Graph,
    commit_id: CommitId,
    size: u64,
    bytes: Seq<u8>,
    parent: Option<CommitId>,
) -> bool {
    &&& commit_at(graph, commit_id) is Some
    &&& commit_at(graph, commit_id)->0.parent == parent
    &&& snapshot_at(graph, commit_at(graph, commit_id)->0.snapshot) is Some
    &&& ({
        let snapshot = snapshot_at(graph, commit_at(graph, commit_id)->0.snapshot)->0;
        snapshot.logical_size == size && snapshot_bytes(graph, snapshot) == bytes
    })
}

/// Whether a map is the one that a write leads to: it holds the bytes of the write, keeps the
/// leaves of the base that stay visible, and has no more leaves than that takes.
pub open spec fn patched_map(
    before: Graph,
    after: Graph,
    base: Option<NodeId>,
    size: u64,
    patches: Seq<PatchView>,
    root: NodeId,
) -> bool {
    &&& covers(after, root, size)
    &&& map_bytes(after, root) == written_bytes(before, base, size, patches)
    &&& leaves_right(after, base_leaves(before, base), patches, map_leaves(after, root))
    &&& map_extents(after, root) <= base_extents(before, base) + 2 * patches.len() + 1
}

/// Whether the error says why the commit of a write could not be built: there is a
/// problem with base, size or patches, an identifier collides, there are too many
/// extents, or the parent is no commit.
pub open spec fn build_failed(
    before: Graph,
    after: Graph,
    base: Option<NodeId>,
    base_len: u64,
    size: u64,
    patches: Seq<PatchView>,
    parent: Option<CommitId>,
    error: DagError,
) -> bool {
    ||| patch_problem(before, base, base_len, size, patches) == Some(error)
    ||| collides(after, error)
    ||| exists|root: NodeId| #[trigger]
        patched_map(before, after, base, size, patches, root) && map_extents(after, root)
            > MAX_SNAPSHOT_EXTENTS && error == DagError::ResourceLimit("Snapshot extent count")
    ||| parent is Some && ref_problem(after, (parent->0, NodeKind::Commit)) == Some(error)
}

/// What committing does once the commit is built: it is bound to the operation, taken
/// into the catalog, and published; then the graph lets go of the binding.
pub open spec fn finish_outcome(
    v: CatalogView,
    graph: Graph,
    bindings: Bindings,
    actor: PrincipalId,
    op: OperationId,
    fence: FenceToken,
    commit_id: CommitId,
) -> (Result<Version, NativeError>, CatalogView, Bindings) {
    match bind_problem(graph, bindings, op, commit_id) {
        Some(error) => (Err(dag_failure(error)), v, bindings),
        None => {
            let receipt = receipt_at(graph, op, commit_id)->0;
            let held = if bindings.dom().contains(op) {
                bindings
            } else {
                bindings.insert(
                    op,
                    OperationBinding { commit_id, state: DagOperationBindingState::Active },
                )
            };
            if held[op].state is Tombstoned {
                (Err(NativeError::Catalog(CatalogError::ReceiptNotDurable)), v, held)
            } else {
                let taken = register_outcome(v, actor, op, fence, receipt, true);
                match taken.0 {
                    Err(error) => (Err(NativeError::Catalog(error)), taken.1, held),
                    Ok(_) => {
                        let attached = bind_outcome(taken.1, actor, op, fence);
                        match attached.0 {
                            Err(error) => (Err(NativeError::Catalog(error)), attached.1, held),
                            Ok(_) => {
                                let end = publish_outcome(attached.1, actor, op, Some(fence));
                                (
                                    match end.0 {
                                        Ok(version) => Ok(shown_version(version)),
                                        Err(error) => Err(NativeError::Catalog(error)),
                                    },
                                    end.1,
                                    if permit_problem(end.1, op) is None
                                        && end.1.handoffs[op].receipt == receipt {
                                        with_tombstone(held, op)
                                    } else {
                                        held
                                    },
                                )
                            },
                        }
                    },
                }
            }
        },
    }
}

impl WriteTxn {
    /// Whether the write is as it was begun.
    pub open spec fn begun(
        self,
        file: FileId,
        expected_head: Head,
        operation_id: OperationId,
        base: SnapshotHandle,
        fence: FenceToken,
    ) -> bool {
        &&& self.file == file
        &&& self.expected_head == expected_head
        &&& self.operation_id == operation_id
        &&& self.base_snapshot == base.snapshot
        &&& self.base_len == base.len
        &&& self.logical_size == base.len
        &&& self.patches@.len() == 0
        &&& self.fence == fence
        &&& self.state is Open
    }

    /// What is gathered.
    pub open spec fn gathered(self) -> Seq<PatchView> {
        views_of(self.patches@)
    }

    /// The invariant of a write: what it has gathered is in order and within the
    /// limits.
    pub open spec fn wf(self) -> bool {
        &&& in_order(self.gathered(), self.logical_size)
        &&& self.patches@.len() <= MAX_PENDING_RANGES
        &&& total_bytes(self.gathered()) <= MAX_PATCH_BYTES_IN_FLIGHT
    }

    pub(crate) fn begin(
        file: FileId,
        expected_head: Head,
        operation_id: OperationId,
        base: SnapshotHandle,
        fence: FenceToken,
    ) -> (txn: Self)
        ensures
            txn.begun(file, expected_head, operation_id, base, fence),
            txn.wf(),
    {
        WriteTxn {
            file,
            expected_head,
            operation_id,
            base_snapshot: base.snapshot,
            base_len: base.len,
            logical_size: base.len,
            patches: Vec::new(),
            fence,
            state: TxnState::Open,
        }
    }

    /// Why bytes cannot be added to the write, if they cannot.
    pub open spec fn write_problem(self, start: u64, end: u64, len: nat) -> Option<NativeError> {
        if !(self.state is Open) {
            Some(NativeError::TransactionClosed)
        } else if start > end || end - start != len {
            Some(NativeError::InvalidRange)
        } else if len == 0 {
            None
        } else if len > MAX_RANGE_WRITE_BYTES {
            Some(NativeError::WriteTooLarge)
        } else if total_bytes(self.gathered()) + len > MAX_PATCH_BYTES_IN_FLIGHT {
            Some(NativeError::TooManyPatchBytes)
        } else if self.patches@.len() == MAX_PENDING_RANGES {
            Some(NativeError::TooManyWrites)
        } else if end > MAX_LOGICAL_FILE_SIZE || self.logical_size > MAX_LOGICAL_FILE_SIZE {
            Some(NativeError::WriteTooLarge)
        } else if reaches_into(self.gathered(), start, end) {
            Some(NativeError::OverlappingWrite)
        } else {
            None
        }
    }

    /// Whether everything but patches and size is the same.
    pub open spec fn same_target(self, other: WriteTxn) -> bool {
        &&& self.file == other.file
        &&& self.expected_head == other.expected_head
        &&& self.operation_id == other.operation_id
        &&& self.base_snapshot == other.base_snapshot
        &&& self.base_len == other.base_len
        &&& self.fence == other.fence
        &&& self.state == other.state
    }

    /// Adds bytes at a range that nothing was written to yet.
    pub fn write_range(&mut self, range: Range<u64>, bytes: &[u8]) -> (r: Result<(), NativeError>)
        requires
            old(self).wf(),
        ensures
            final(self).wf(),
            final(self).same_target(*old(self)),
            match old(self).write_problem(range.start, range.end, bytes@.len()) {
                Some(error) => r == Err::<(), NativeError>(error) && final(self).gathered() == old(
                    self,
                ).gathered() && final(self).logical_size == old(self).logical_size,
                None => r is Ok && if bytes@.len() == 0 {
                    final(self).gathered() == old(self).gathered() && final(self).logical_size
                        == old(self).logical_size
                } else {
                    &&& final(self).gathered() == old(self).gathered().insert(
                        slot(old(self).gathered(), range.start),
                        PatchView { start: range.start, end: range.end, bytes: bytes@ },
                    )
                    &&& final(self).logical_size == if range.end > old(self).logical_size {
                        range.end
                    } else {
                        old(self).logical_size
                    }
                },
            },
    {
        if self.state != TxnState::Open {
            return Err(NativeError::TransactionClosed);
        }
        if range.start > range.end {
            return Err(NativeError::InvalidRange);
        }
        if range.end - range.start != bytes.len() as u64 {
            return Err(NativeError::InvalidRange);
        }
        let length: usize = bytes.len();
        if length == 0 {
            return Ok(());
        }
        if length > MAX_RANGE_WRITE_BYTES {
            return Err(NativeError::WriteTooLarge);
        }
        let patch_bytes: usize = self.patch_bytes();
        if patch_bytes + length > MAX_PATCH_BYTES_IN_FLIGHT {
            return Err(NativeError::TooManyPatchBytes);
        }
        if self.patches.len() == MAX_PENDING_RANGES {
            return Err(NativeError::TooManyWrites);
        }
        let new_size: u64 = if range.end > self.logical_size {
            range.end
        } else {
            self.logical_size
        };
        if new_size > MAX_LOGICAL_FILE_SIZE {
            return Err(NativeError::WriteTooLarge);
        }
        if self.overlaps(range.start, range.end) {
            return Err(NativeError::OverlappingWrite);
        }
        let position: usize = self.position(range.start);
        let ghost before = self.gathered();
        let ghost patch = PatchView { start: range.start, end: range.end, bytes: bytes@ };
        let mut copy: Vec<u8> = Vec::new();
        copy.extend_from_slice(bytes);
        proof {
            assert(copy@ =~= bytes@);
        }
        self.patches.insert(
            position,
            RangePatch { start: range.start, end: range.end, bytes: copy },
        );
        self.logical_size = new_size;
        proof {
            assert(self.gathered() =~= before.insert(position as int, patch));
            lemma_slot(before, range.start);
            lemma_insert_in_order(before, old(self).logical_size, new_size, patch);
            lemma_insert_total(before, position as int, patch);
        }
        Ok(())
    }

    /// How many bytes the write has gathered.
    fn patch_bytes(&self) -> (total: usize)
        requires
            self.wf(),
        ensures
            total == total_bytes(self.gathered()),
    {
        let mut total: usize = 0;
        let mut i: usize = 0;
        let ghost all = self.gathered();
        proof {
            assert(all.take(0) =~= Seq::empty());
        }
        while i < self.patches.len()
            invariant
                i <= self.patches@.len(),
                all == self.gathered(),
                self.wf(),
                total == total_bytes(all.take(i as int)),
            decreases self.patches@.len() - i,
        {
            proof {
                lemma_total_prefix(all, i + 1);
                assert(all.take(i + 1).drop_last() =~= all.take(i as int));
                assert(all.take(i + 1).last() == self.patches@[i as int]@);
            }
            total = total + self.patches[i].bytes.len();
            i = i + 1;
        }
        proof {
            assert(all.take(i as int) =~= all);
        }
        total
    }

    fn overlaps(&self, start: u64, end: u64) -> (found: bool)
        ensures
            found == reaches_into(self.gathered(), start, end),
    {
        let mut i: usize = 0;
        let ghost all = self.gathered();
        while i < self.patches.len()
            invariant
                i <= self.patches@.len(),
                all == self.gathered(),
                forall|j: int|
                    0 <= j < i ==> !((#[trigger] all[j]).start < end && start < all[j].end),
            decreases self.patches@.len() - i,
        {
            if self.patches[i].start < end && start < self.patches[i].end {
                proof {
                    assert(all[i as int].start < end);
                }
                return true;
            }
            i = i + 1;
        }
        false
    }

    /// Where a patch that begins at `start` goes.
    fn position(&self, start: u64) -> (position: usize)
        ensures
            position == slot(self.gathered(), start),
            position <= self.patches@.len(),
    {
        let mut i: usize = self.patches.len();
        let ghost all = self.gathered();
        proof {
            assert(all.take(i as int) =~= all);
        }
        while i > 0 && self.patches[i - 1].start >= start
            invariant
                i <= self.patches@.len(),
                all == self.gathered(),
                slot(all, start) == slot(all.take(i as int), start),
            decreases i,
        {
            proof {
                assert(all.take(i as int).last() == self.patches@[i - 1]@);
                assert(all.take(i as int).drop_last() =~= all.take(i - 1));
            }
            i = i - 1;
        }
        proof {
            if i > 0 {
                assert(all.take(i as int).last() == self.patches@[i - 1]@);
            }
        }
        i
    }

    /// Cuts the file, and what was gathered for it, to a smaller size.
    pub fn truncate(&mut self, new_size: u64) -> (r: Result<(), NativeError>)
        requires
            old(self).wf(),
        ensures
            final(self).wf(),
            final(self).same_target(*old(self)),
            if !(old(self).state is Open) {
                r == Err::<(), NativeError>(NativeError::TransactionClosed)
                    && final(self).gathered() == old(self).gathered()
                    && final(self).logical_size == old(self).logical_size
            } else if new_size > old(self).logical_size {
                r == Err::<(), NativeError>(NativeError::CannotExtend) && final(self).gathered()
                    == old(self).gathered() && final(self).logical_size == old(self).logical_size
            } else {
                r is Ok && final(self).gathered() == cut(old(self).gathered(), new_size)
                    && final(self).logical_size == new_size
            },
    {
        if self.state != TxnState::Open {
            return Err(NativeError::TransactionClosed);
        }
        if new_size > self.logical_size {
            return Err(NativeError::CannotExtend);
        }
        let ghost all = self.gathered();
        let mut kept: Vec<RangePatch> = Vec::new();
        let mut patches: Vec<RangePatch> = Vec::new();
        std::mem::swap(&mut patches, &mut self.patches);
        let n: usize = patches.len();
        let mut i: usize = 0;
        proof {
            assert(views_of(patches@) =~= all);
            assert(all.take(0) =~= Seq::empty());
            assert(views_of(kept@) =~= cut(all.take(0), new_size));
        }
        while i < n
            invariant
                i <= n == patches@.len(),
                all == views_of(patches@),
                in_order(all, self.logical_size),
                views_of(kept@) == cut(all.take(i as int), new_size),
            decreases n - i,
        {
            let patch = &patches[i];
            proof {
                assert(all[i as int] == patch@);
                assert(all.take(i + 1).last() == patch@);
                assert(all.take(i + 1).drop_last() =~= all.take(i as int));
            }
            let ghost before = views_of(kept@);
            if patch.start < new_size {
                let end: u64 = if patch.end > new_size {
                    new_size
                } else {
                    patch.end
                };
                let keep: usize = (end - patch.start) as usize;
                let bytes = crate::bytes::copy_range(patch.bytes.as_slice(), 0, keep);
                proof {
                    assert(bytes@ =~= patch.bytes@.take(end - patch.start));
                    if patch.end <= new_size {
                        assert(bytes@ =~= patch.bytes@);
                    }
                }
                kept.push(RangePatch { start: patch.start, end, bytes });
                proof {
                    assert(views_of(kept@) =~= before.push(
                        PatchView { start: patch.start, end, bytes: bytes@ },
                    ));
                }
            }
            i = i + 1;
        }
        self.patches = kept;
        self.logical_size = new_size;
        proof {
            assert(all.take(i as int) =~= all);
            lemma_cut_in_order(all, old(self).logical_size, new_size);
            lemma_cut_total(all, new_size);
        }
        Ok(())
    }

    /// Builds the commit of the write in the graph.
    fn build_commit(&self, dag: &mut Dag, parent: Option<CommitId>) -> (r: Result<
        CommitId,
        DagError,
    >)
        requires
            old(dag).wf(),
        ensures
            final(dag).wf(),
            extends(old(dag).graph(), final(dag).graph()),
            final(dag).bindings() == old(dag).bindings(),
            match r {
                Ok(commit_id) => patch_problem(
                    old(dag).graph(),
                    self.base_snapshot,
                    self.base_len,
                    self.logical_size,
                    self.gathered(),
                ) is None && commit_holds(
                    final(dag).graph(),
                    commit_id,
                    self.logical_size,
                    written_bytes(
                        old(dag).graph(),
                        self.base_snapshot,
                        self.logical_size,
                        self.gathered(),
                    ),
                    parent,
                ),
                Err(error) => build_failed(
                    old(dag).graph(),
                    final(dag).graph(),
                    self.base_snapshot,
                    self.base_len,
                    self.logical_size,
                    self.gathered(),
                    parent,
                    error,
                ),
            },
    {
        let ghost graph0 = dag.graph();
        let mut refs: Vec<(Range<u64>, &[u8])> = Vec::new();
        let mut i: usize = 0;
        while i < self.patches.len()
            invariant
                i <= self.patches@.len(),
                refs@.len() == i,
                forall|j: int|
                    0 <= j < i ==> (#[trigger] refs@[j]).0.start == self.patches@[j].start
                        && refs@[j].0.end == self.patches@[j].end && refs@[j].1@
                        == self.patches@[j].bytes@,
            decreases self.patches@.len() - i,
        {
            let patch = &self.patches[i];
            refs.push((patch.start..patch.end, patch.bytes.as_slice()));
            i = i + 1;
        }
        proof {
            assert(patch_views(refs@) =~= self.gathered());
        }
        let root = match dag.patch_snapshot(
            self.base_snapshot,
            self.base_len,
            self.logical_size,
            refs.as_slice(),
        ) {
            Ok(root) => root,
            Err(error) => {
                return Err(error);
            },
        };
        let ghost bytes = written_bytes(
            graph0,
            self.base_snapshot,
            self.logical_size,
            self.gathered(),
        );
        proof {
            assert(patched_map(
                graph0,
                dag.graph(),
                self.base_snapshot,
                self.logical_size,
                self.gathered(),
                root,
            ));
        }
        seal_commit(dag, root, self.logical_size, parent, Ghost(bytes))
    }

    /// Commits the write as the next version of its file, if the head is still the one
    /// that it was begun on. What the catalog records counts: a binding that the graph
    /// still holds afterwards does not turn a publication into an error.
    pub fn commit(self, store: &mut Store) -> (r: Result<Version, NativeError>)
        requires
            old(store).wf(),
        ensures
            final(store).wf(),
            final(store).actor == old(store).actor,
            extends(old(store).dag.graph(), final(store).dag.graph()),
            self.committed(*old(store), *final(store), r),
    {
        if self.state != TxnState::Open {
            return Err(NativeError::TransactionClosed);
        }
        let actor = store.actor;
        let parent = match store.catalog.head(actor, self.file) {
            Ok(_) => store.catalog.commit_of(self.file, self.expected_head.version_id),
            Err(_) => None,
        };
        let commit_id = match self.build_commit(&mut store.dag, parent) {
            Ok(commit_id) => commit_id,
            Err(error) => {
                return Err(NativeError::from(error));
            },
        };
        finish(store, self.operation_id, self.fence, commit_id)
    }

    /// Whether the store and the answer are what committing the write leads to.
    pub open spec fn committed(
        self,
        before: Store,
        after: Store,
        r: Result<Version, NativeError>,
    ) -> bool {
        let v = before.catalog@;
        let parent = parent_of(v, before.actor, self.file, self.expected_head.version_id);
        if !(self.state is Open) {
            r == Err::<Version, NativeError>(NativeError::TransactionClosed) && after == before
        } else {
            ||| exists|error: DagError|
                #[trigger] build_failed(
                    before.dag.graph(),
                    after.dag.graph(),
                    self.base_snapshot,
                    self.base_len,
                    self.logical_size,
                    self.gathered(),
                    parent,
                    error,
                ) && r == Err::<Version, NativeError>(dag_failure(error)) && after.catalog@ == v
                    && after.dag.bindings() == before.dag.bindings()
            ||| exists|commit_id: CommitId|
                #[trigger] commit_holds(
                    after.dag.graph(),
                    commit_id,
                    self.logical_size,
                    written_bytes(
                        before.dag.graph(),
                        self.base_snapshot,
                        self.logical_size,
                        self.gathered(),
                    ),
                    parent,
                ) && (r, after.catalog@, after.dag.bindings()) == finish_outcome(
                    v,
                    after.dag.graph(),
                    before.dag.bindings(),
                    before.actor,
                    self.operation_id,
                    self.fence,
                    commit_id,
                )
        }
    }

    /// Gives the write up.
    pub fn abort(self, store: &mut Store) -> (r: Result<(), NativeError>)
        ensures
            final(store).dag == old(store).dag,
            final(store).actor == old(store).actor,
            if !(self.state is Open) {
                r == Err::<(), NativeError>(NativeError::TransactionClosed)
                    && final(store).catalog@ == old(store).catalog@
            } else {
                let outcome = abort_outcome(
                    old(store).catalog@,
                    self.operation_id,
                    old(store).actor,
                    Some(self.fence),
                );
                final(store).catalog@ == outcome.1 && r == match outcome.0 {
                    Ok(_) => Ok::<(), NativeError>(()),
                    Err(error) => Err::<(), NativeError>(NativeError::Catalog(error)),
                }
            },
    {
        if self.state != TxnState::Open {
            return Err(NativeError::TransactionClosed);
        }
        match store.catalog.abort(self.operation_id, store.actor, Some(self.fence)) {
            Ok(_) => Ok(()),
            Err(error) => Err(NativeError::Catalog(error)),
        }
    }
}

/// Binds a finished commit to its operation and publishes it.
fn finish(store: &mut Store, op: OperationId, fence: FenceToken, commit_id: CommitId) -> (r: Result<
    Version,
    NativeError,
>)
    requires
        old(store).wf(),
    ensures
        final(store).wf(),
        final(store).actor == old(store).actor,
        final(store).dag.graph() == old(store).dag.graph(),
        (r, final(store).catalog@, final(store).dag.bindings()) == finish_outcome(
            old(store).catalog@,
            old(store).dag.graph(),
            old(store).dag.bindings(),
            old(store).actor,
            op,
            fence,
            commit_id,
        ),
{
    let actor = store.actor;
    let handoff = match store.dag.commit_operation(op, commit_id) {
        Ok(handoff) => handoff,
        Err(error) => {
            return Err(NativeError::from(error));
        },
    };
    let receipt = handoff.receipt();
    if !store.dag.receipt_is_active(&receipt) {
        return Err(NativeError::Catalog(CatalogError::ReceiptNotDurable));
    }
    match store.catalog.register_verified_receipt(
        actor,
        op,
        fence,
        handoff,
    ) {
        Err(error) => {
            return Err(NativeError::Catalog(error));
        },
        Ok(_) => {},
    }
    match store.catalog.bind_candidate(actor, op, fence) {
        Err(error) => {
            return Err(NativeError::Catalog(error));
        },
        Ok(_) => {},
    }
    let outcome = store.catalog.publish(actor, op, Some(fence));
    match store.catalog.terminal_permit(op) {
        Ok(permit) => {
            let released = store.dag.tombstone_operation(op, handoff, permit);
        },
        Err(_) => {},
    }
    match outcome {
        Ok(version) => Ok(Version::from(version)),
        Err(error) => Err(NativeError::Catalog(error)),
    }
}

/// Adds the snapshot and the commit over a finished map.
fn seal_commit(
    dag: &mut Dag,
    root: NodeId,
    size: u64,
    parent: Option<CommitId>,
    Ghost(bytes): Ghost<Seq<u8>>,
) -> (r: Result<CommitId, DagError>)
    requires
        old(dag).wf(),
        size <= MAX_LOGICAL_FILE_SIZE,
        covers(old(dag).graph(), root, size),
        map_bytes(old(dag).graph(), root) == bytes,
    ensures
        final(dag).wf(),
        extends(old(dag).graph(), final(dag).graph()),
        final(dag).bindings() == old(dag).bindings(),
        match r {
            Ok(commit_id) => commit_holds(final(dag).graph(), commit_id, size, bytes, parent),
            Err(error) => collides(final(dag).graph(), error) || (final(dag).graph() == old(
                dag,
            ).graph() && map_extents(old(dag).graph(), root) > MAX_SNAPSHOT_EXTENTS && error
                == DagError::ResourceLimit("Snapshot extent count")) || (parent is Some
                && ref_problem(final(dag).graph(), (parent->0, NodeKind::Commit)) == Some(error)),
        },
{
    let ghost graph0 = dag.graph();
    proof {
        assert(node_sound(graph0, root));
    }
    let digest = match dag.digest_range_map(root, size) {
        Ok(digest) => digest,
        Err(error) => {
            return Err(error);
        },
    };
    let snapshot = SnapshotNode { logical_size: size, range_map_root: root, content_digest: digest };
    proof {
        lemma_snapshot_refs(graph0, snapshot);
        assert(snapshot_problem(graph0, snapshot) is None);
    }
    let snapshot_id = match dag.insert(Node::Snapshot(snapshot)) {
        Ok(id) => id,
        Err(error) => {
            proof {
                let node = NodeView::Snapshot(snapshot);
                assert(node.digest() == id_of(node)@);
            }
            return Err(error);
        },
    };
    let ghost graph1 = dag.graph();
    let commit = CommitNode { snapshot: snapshot_id, parent };
    proof {
        lemma_commit_refs(graph1, commit);
        lemma_map_stable(graph0, graph1, root);
    }
    let r = dag.insert(Node::Commit(commit));
    proof {
        let node = NodeView::Commit(commit);
        assert(node.digest() == id_of(node)@);
        let graph2 = dag.graph();
        lemma_map_stable(graph1, graph2, root);
        if r is Ok {
            assert(graph2[r->Ok_0] == node);
            assert(graph2[snapshot_id] == graph1[snapshot_id]);
            assert(snapshot_at(graph2, snapshot_id) == Some(snapshot));
        }
    }
    r
}

proof fn lemma_snapshot_refs(graph: Graph, snapshot: SnapshotNode)
    ensures
        reference_problem(graph, NodeView::Snapshot(snapshot)) == ref_problem(
            graph,
            (snapshot.range_map_root, NodeKind::RangeMap),
        ),
{
    reveal_with_fuel(first_some, 3);
}

proof fn lemma_commit_refs(graph: Graph, commit: CommitNode)
    ensures
        reference_problem(graph, NodeView::Commit(commit)) == match ref_problem(
            graph,
            (commit.snapshot, NodeKind::Snapshot),
        ) {
            Some(error) => Some(error),
            None => match commit.parent {
                Some(parent) => ref_problem(graph, (parent, NodeKind::Commit)),
                None => None,
            },
        },
{
    reveal_with_fuel(first_some, 4);
}

proof fn lemma_total_prefix(patches: Seq<PatchView>, n: int)
    requires
        0 <= n <= patches.len(),
    ensures
        total_bytes(patches.take(n)) <= total_bytes(patches),
    decreases patches.len() - n,
{
    if n < patches.len() {
        lemma_total_prefix(patches, n + 1);
        assert(patches.take(n + 1).drop_last() =~= patches.take(n));
    } else {
        assert(patches.take(n) =~= patches);
    }
}

proof fn lemma_slot(patches: Seq<PatchView>, start: u64)
    ensures
        0 <= slot(patches, start) <= patches.len(),
        slot(patches, start) > 0 ==> patches[slot(patches, start) - 1].start < start,
        forall|i: int|
            slot(patches, start) <= i < patches.len() ==> (#[trigger] patches[i]).start >= start,
    decreases patches.len(),
{
    if !(patches.len() == 0 || patches.last().start < start) {
        let rest = patches.drop_last();
        lemma_slot(rest, start);
        assert forall|i: int| slot(patches, start) <= i < patches.len() implies (
        #[trigger] patches[i]).start >= start by {
            if i < rest.len() {
                assert(rest[i] == patches[i]);
            }
        }
    }
}

proof fn lemma_insert_in_order(patches: Seq<PatchView>, size: u64, new_size: u64, patch: PatchView)
    requires
        in_order(patches, size),
        size <= new_size,
        patch.start < patch.end <= new_size,
        patch.bytes.len() == patch.end - patch.start,
        patch.bytes.len() <= MAX_RANGE_WRITE_BYTES,
        !reaches_into(patches, patch.start, patch.end),
    ensures
        in_order(patches.insert(slot(patches, patch.start), patch), new_size),
{
    let at = slot(patches, patch.start);
    lemma_slot(patches, patch.start);
    let after = patches.insert(at, patch);
    assert forall|i: int| 0 <= i < after.len() implies ({
        let p = #[trigger] after[i];
        p.start < p.end <= new_size && p.bytes.len() == p.end - p.start && p.bytes.len()
            <= MAX_RANGE_WRITE_BYTES
    }) by {
        if i < at {
            assert(after[i] == patches[i]);
        } else if i > at {
            assert(after[i] == patches[i - 1]);
        }
    }
    assert forall|i: int, j: int|
        #![trigger after[i], after[j]]
        0 <= i < j < after.len() implies after[i].end <= after[j].start by {
        if i < at {
            assert(after[i] == patches[i]);
            if j == at {
                if i < at - 1 {
                    assert(patches[i].end <= patches[at - 1].start);
                }
                assert(patches[at - 1].start < patch.end);
            } else if j > at {
                assert(after[j] == patches[j - 1]);
            } else {
                assert(after[j] == patches[j]);
            }
        } else if i == at {
            assert(after[j] == patches[j - 1]);
            assert(patches[j - 1].start >= patch.start);
            assert(patch.start < patches[j - 1].end);
        } else {
            assert(after[i] == patches[i - 1] && after[j] == patches[j - 1]);
        }
    }
}

proof fn lemma_insert_total(patches: Seq<PatchView>, at: int, patch: PatchView)
    requires
        0 <= at <= patches.len(),
    ensures
        total_bytes(patches.insert(at, patch)) == total_bytes(patches) + patch.bytes.len(),
    decreases patches.len() - at,
{
    let after = patches.insert(at, patch);
    if at == patches.len() {
        assert(after.drop_last() =~= patches);
    } else {
        assert(after.last() == patches.last());
        assert(after.drop_last() =~= patches.drop_last().insert(at, patch));
        lemma_insert_total(patches.drop_last(), at, patch);
    }
}

proof fn lemma_cut_in_order(patches: Seq<PatchView>, size: u64, new_size: u64)
    requires
        in_order(patches, size),
        new_size <= size,
    ensures
        in_order(cut(patches, new_size), new_size),
        cut(patches, new_size).len() <= patches.len(),
        cut(patches, new_size).len() > 0 ==> patches.len() > 0 && cut(
            patches,
            new_size,
        ).last().end <= patches.last().end,
    decreases patches.len(),
{
    if patches.len() > 0 {
        let rest = patches.drop_last();
        assert(in_order(rest, size)) by {
            assert(forall|i: int| 0 <= i < rest.len() ==> #[trigger] rest[i] == patches[i]);
        }
        lemma_cut_in_order(rest, size, new_size);
        let last = patches.last();
        assert(patches[patches.len() - 1] == last);
        let kept = cut(rest, new_size);
        let after = cut(patches, new_size);
        if last.start < new_size {
            assert forall|i: int, j: int|
                #![trigger after[i], after[j]]
                0 <= i < j < after.len() implies after[i].end <= after[j].start by {
                assert(after[i] == kept[i]);
                if j < kept.len() {
                    assert(after[j] == kept[j]);
                } else {
                    if i < kept.len() - 1 {
                        assert(kept[i].end <= kept[kept.len() - 1].start);
                        assert(kept[kept.len() - 1].start < kept[kept.len() - 1].end);
                    }
                    assert(kept.last().end <= rest.last().end);
                    assert(rest.last() == patches[patches.len() - 2]);
                    assert(patches[patches.len() - 2].end <= patches[patches.len() - 1].start);
                }
            }
            assert forall|i: int| 0 <= i < after.len() implies ({
                let p = #[trigger] after[i];
                p.start < p.end <= new_size && p.bytes.len() == p.end - p.start && p.bytes.len()
                    <= MAX_RANGE_WRITE_BYTES
            }) by {
                if i < kept.len() {
                    assert(after[i] == kept[i]);
                }
            }
        } else if kept.len() > 0 {
            assert(rest.last() == patches[patches.len() - 2]);
            assert(patches[patches.len() - 2].end <= patches[patches.len() - 1].start);
        }
    }
}

proof fn lemma_cut_total(patches: Seq<PatchView>, size: u64)
    requires
        forall|i: int|
            0 <= i < patches.len() ==> (#[trigger] patches[i]).bytes.len() == patches[i].end
                - patches[i].start && patches[i].start < patches[i].end,
    ensures
        total_bytes(cut(patches, size)) <= total_bytes(patches),
    decreases patches.len(),
{
    if patches.len() > 0 {
        let rest = patches.drop_last();
        assert(forall|i: int| 0 <= i < rest.len() ==> #[trigger] rest[i] == patches[i]);
        lemma_cut_total(rest, size);
        assert(patches[patches.len() - 1] == patches.last());
        let after = cut(patches, size);
        if patches.last().start < size {
            assert(after.drop_last() =~= cut(rest, size));
        }
    }
}

} // verus!
