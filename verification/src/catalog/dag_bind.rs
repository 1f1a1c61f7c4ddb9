//! The durable bindings of operations to commits.
use vstd::prelude::*;

use crate::bytes::same_id;
use crate::catalog::dag::{Dag, DagOperationBindingState, OperationBinding};
use crate::catalog::graph::Graph;
use crate::catalog::ids::{
    CatalogTerminalPermit, CommitId, CommitReceipt, DurableDagReceipt, NodeId, OperationId,
};
use crate::catalog::node::{CommitNode, DagError, Node, NodeView, SnapshotNode};
use crate::table::{as_map, Table};

verus! {

/// The commit with the given identifier, where there is one.
pub open spec fn commit_at(graph: Graph, id: NodeId) -> Option<CommitNode> {
    if graph.dom().contains(id) {
        match graph[id] {
            NodeView::Commit(commit) => Some(commit),
            _ => None,
        }
    } else {
        None
    }
}

pub open spec fn receipt_of(
    operation: OperationId,
    commit_id: CommitId,
    commit: CommitNode,
    snapshot: SnapshotNode,
) -> CommitReceipt {
    CommitReceipt {
        operation_id: operation,
        commit_id,
        snapshot_id: commit.snapshot,
        snapshot_size: snapshot.logical_size,
        snapshot_digest: snapshot.content_digest,
        parent: commit.parent,
    }
}

/// The receipt of an operation bound to the given commit, if commit and snapshot
/// are there.
pub open spec fn receipt_at(graph: Graph, operation: OperationId, commit_id: CommitId) -> Option<
    CommitReceipt,
> {
    match commit_at(graph, commit_id) {
        Some(commit) => if graph.dom().contains(commit.snapshot) {
            match graph[commit.snapshot] {
                NodeView::Snapshot(snapshot) => Some(
                    receipt_of(operation, commit_id, commit, snapshot),
                ),
                _ => None,
            }
        } else {
            None
        },
        None => None,
    }
}

/// The receipt and the state of an operation's binding.
pub open spec fn bound(
    graph: Graph,
    bindings: Map<OperationId, OperationBinding>,
    operation: OperationId,
) -> Option<(CommitReceipt, DagOperationBindingState)> {
    if bindings.dom().contains(operation) {
        match receipt_at(graph, operation, bindings[operation].commit_id) {
            Some(receipt) => Some((receipt, bindings[operation].state)),
            None => None,
        }
    } else {
        None
    }
}

/// Why an operation cannot be bound to a commit, if it cannot.
pub open spec fn bind_problem(
    graph: Graph,
    bindings: Map<OperationId, OperationBinding>,
    operation: OperationId,
    commit_id: CommitId,
) -> Option<DagError> {
    match commit_at(graph, commit_id) {
        None => if graph.dom().contains(commit_id) {
            Some(DagError::InvalidReference(commit_id))
        } else {
            Some(DagError::MissingNode(commit_id))
        },
        Some(commit) => if NodeView::Commit(commit).digest() != commit_id@ {
            Some(DagError::HashMismatch(commit_id))
        } else if !graph.dom().contains(commit.snapshot) {
            Some(DagError::MissingNode(commit.snapshot))
        } else if !(graph[commit.snapshot] is Snapshot) {
            Some(DagError::InvalidReference(commit.snapshot))
        } else if bindings.dom().contains(operation) && bindings[operation].commit_id
            != commit_id {
            Some(DagError::OperationConflict(operation))
        } else {
            None
        },
    }
}

/// The bindings after a tombstone was put on an operation's binding.
pub open spec fn with_tombstone(
    bindings: Map<OperationId, OperationBinding>,
    operation: OperationId,
) -> Map<OperationId, OperationBinding> {
    bindings.insert(
        operation,
        OperationBinding {
            commit_id: bindings[operation].commit_id,
            state: DagOperationBindingState::Tombstoned,
        },
    )
}

impl Clone for Dag {
    fn clone(&self) -> (copy: Self)
        ensures
            copy.graph() == self.graph(),
            copy.bindings() == self.bindings(),
    {
        let mut nodes: Table<NodeId, Node> = Table::new();
        let ghost items = self.nodes.items();
        let mut i: usize = 0;
        while i < self.nodes.len()
            invariant
                i <= items.len(),
                items == self.nodes.items(),
                self.nodes@ == as_map(items),
                forall|id: NodeId| #[trigger]
                    nodes@.dom().contains(id) ==> self.nodes@.dom().contains(id) && nodes@[id]@
                        == self.nodes@[id]@,
                forall|j: int| 0 <= j < i ==> nodes@.dom().contains((#[trigger] items[j]).0),
            decreases items.len() - i,
        {
            let id = *self.nodes.key_at(i);
            let copy = self.nodes.value_at(i).clone();
            nodes.insert(id, copy);
            i = i + 1;
        }
        let mut operation_commits: Table<OperationId, OperationBinding> = Table::new();
        let ghost bound = self.operation_commits.items();
        let mut i: usize = 0;
        while i < self.operation_commits.len()
            invariant
                i <= bound.len(),
                bound == self.operation_commits.items(),
                self.operation_commits@ == as_map(bound),
                forall|id: OperationId| #[trigger]
                    operation_commits@.dom().contains(id)
                        ==> self.operation_commits@.dom().contains(id) && operation_commits@[id]
                        == self.operation_commits@[id],
                forall|j: int|
                    0 <= j < i ==> operation_commits@.dom().contains((#[trigger] bound[j]).0),
            decreases bound.len() - i,
        {
            let id = *self.operation_commits.key_at(i);
            let binding = *self.operation_commits.value_at(i);
            operation_commits.insert(id, binding);
            i = i + 1;
        }
        let reopened = Dag { nodes, operation_commits };
        proof {
            assert forall|id: NodeId| self.nodes@.dom().contains(id) implies nodes@.dom().contains(
                id,
            ) by {
                let j = crate::table::position(items, id);
                assert(items[j].0 == id);
            }
            assert(reopened.graph() =~= self.graph());
            assert forall|id: OperationId|
                self.operation_commits@.dom().contains(
                    id,
                ) implies operation_commits@.dom().contains(id) by {
                let j = crate::table::position(bound, id);
                assert(bound[j].0 == id);
            }
            assert(reopened.bindings() =~= self.bindings());
        }
        reopened
    }
}

impl Dag {
    /// Binds an operation to a commit that is there, and hands the receipt out.
    pub fn commit_operation(&mut self, operation_id: OperationId, commit_id: CommitId) -> (r: Result<
        DurableDagReceipt,
        DagError,
    >)
        ensures
            final(self).graph() == old(self).graph(),
            match bind_problem(
                old(self).graph(),
                old(self).bindings(),
                operation_id,
                commit_id,
            ) {
                Some(error) => r == Err::<DurableDagReceipt, DagError>(error)
                    && final(self).bindings() == old(self).bindings(),
                None => r is Ok && Some(r->Ok_0.inner()) == receipt_at(
                    old(self).graph(),
                    operation_id,
                    commit_id,
                ) && final(self).bindings() == if old(self).bindings().dom().contains(
                    operation_id,
                ) {
                    old(self).bindings()
                } else {
                    old(self).bindings().insert(
                        operation_id,
                        OperationBinding { commit_id, state: DagOperationBindingState::Active },
                    )
                },
            },
    {
        let commit = match self.nodes.get(&commit_id) {
            Some(Node::Commit(commit)) => *commit,
            Some(_) => {
                return Err(DagError::InvalidReference(commit_id));
            },
            None => {
                return Err(DagError::MissingNode(commit_id));
            },
        };
        let own_id = match Node::Commit(commit).id() {
            Ok(id) => id,
            Err(error) => {
                return Err(error);
            },
        };
        if !same_id(&own_id, &commit_id) {
            return Err(DagError::HashMismatch(commit_id));
        }
        let snapshot = match self.nodes.get(&commit.snapshot) {
            Some(Node::Snapshot(snapshot)) => *snapshot,
            Some(_) => {
                return Err(DagError::InvalidReference(commit.snapshot));
            },
            None => {
                return Err(DagError::MissingNode(commit.snapshot));
            },
        };
        match self.operation_commits.get(&operation_id) {
            Some(existing) => {
                if !same_id(&existing.commit_id, &commit_id) {
                    return Err(DagError::OperationConflict(operation_id));
                }
            },
            None => {
                self.operation_commits.insert(
                    operation_id,
                    OperationBinding { commit_id, state: DagOperationBindingState::Active },
                );
            },
        }
        Ok(
            DurableDagReceipt::new(
                CommitReceipt {
                    operation_id,
                    commit_id,
                    snapshot_id: commit.snapshot,
                    snapshot_size: snapshot.logical_size,
                    snapshot_digest: snapshot.content_digest,
                    parent: commit.parent,
                },
            ),
        )
    }

    /// Whether the receipt is that of an active binding.
    pub fn receipt_is_active(&self, receipt: &CommitReceipt) -> (active: bool)
        ensures
            active == (bound(self.graph(), self.bindings(), receipt.operation_id) == Some(
                (*receipt, DagOperationBindingState::Active),
            )),
    {
        match self.operation_binding_receipt(receipt.operation_id) {
            Some((expected, state)) => state == DagOperationBindingState::Active
                && expected.same(receipt),
            None => false,
        }
    }

    /// Whether the receipt is that of a tombstoned binding.
    pub fn receipt_is_tombstoned(&self, receipt: &CommitReceipt) -> (tombstoned: bool)
        ensures
            tombstoned == (bound(self.graph(), self.bindings(), receipt.operation_id) == Some(
                (*receipt, DagOperationBindingState::Tombstoned),
            )),
    {
        match self.operation_binding_receipt(receipt.operation_id) {
            Some((expected, state)) => state == DagOperationBindingState::Tombstoned
                && expected.same(receipt),
            None => false,
        }
    }

    /// The receipt of an operation whose binding is active.
    pub fn operation_binding(&self, operation_id: OperationId) -> (receipt: Option<
        DurableDagReceipt,
    >)
        ensures
            match bound(self.graph(), self.bindings(), operation_id) {
                Some((expected, DagOperationBindingState::Active)) => receipt is Some
                    && receipt->0.inner() == expected,
                _ => receipt is None,
            },
    {
        match self.operation_binding_receipt(operation_id) {
            Some((receipt, DagOperationBindingState::Active)) => Some(
                DurableDagReceipt::new(receipt),
            ),
            _ => None,
        }
    }

    fn operation_binding_receipt(&self, operation_id: OperationId) -> (r: Option<
        (CommitReceipt, DagOperationBindingState),
    >)
        ensures
            r == bound(self.graph(), self.bindings(), operation_id),
    {
        let binding = match self.operation_commits.get(&operation_id) {
            Some(binding) => *binding,
            None => {
                return None;
            },
        };
        let commit = match self.nodes.get(&binding.commit_id) {
            Some(Node::Commit(commit)) => *commit,
            _ => {
                return None;
            },
        };
        let snapshot = match self.nodes.get(&commit.snapshot) {
            Some(Node::Snapshot(snapshot)) => *snapshot,
            _ => {
                return None;
            },
        };
        Some(
            (
                CommitReceipt {
                    operation_id,
                    commit_id: binding.commit_id,
                    snapshot_id: commit.snapshot,
                    snapshot_size: snapshot.logical_size,
                    snapshot_digest: snapshot.content_digest,
                    parent: commit.parent,
                },
                binding.state,
            ),
        )
    }

    /// Puts a tombstone on a binding. This takes the catalog's word that the
    /// operation has ended as well as the exact receipt that was committed.
    pub fn tombstone_operation(
        &mut self,
        operation_id: OperationId,
        handoff: DurableDagReceipt,
        permit: CatalogTerminalPermit,
    ) -> (r: Result<(), DagError>)
        ensures
            final(self).graph() == old(self).graph(),
            if handoff.inner().operation_id == operation_id && permit.inner() == handoff.inner()
                && (bound(old(self).graph(), old(self).bindings(), operation_id) matches Some(
                (receipt, _),
            ) && receipt == handoff.inner()) {
                r is Ok && final(self).bindings() == with_tombstone(
                    old(self).bindings(),
                    operation_id,
                )
            } else {
                r == Err::<(), DagError>(DagError::OperationConflict(operation_id))
                    && final(self).bindings() == old(self).bindings()
            },
    {
        let receipt = handoff.receipt();
        if receipt.operation_id != operation_id {
            return Err(DagError::OperationConflict(operation_id));
        }
        if !permit.matches(&receipt) {
            return Err(DagError::OperationConflict(operation_id));
        }
        let (expected, state) = match self.operation_binding_receipt(operation_id) {
            Some(found) => found,
            None => {
                return Err(DagError::OperationConflict(operation_id));
            },
        };
        if !expected.same(&receipt) {
            return Err(DagError::OperationConflict(operation_id));
        }
        match state {
            DagOperationBindingState::Active => {
                self.operation_commits.insert(
                    operation_id,
                    OperationBinding {
                        commit_id: expected.commit_id,
                        state: DagOperationBindingState::Tombstoned,
                    },
                );
            },
            DagOperationBindingState::Tombstoned => {
                proof {
                    assert(with_tombstone(self.bindings(), operation_id) =~= self.bindings());
                }
            },
        }
        Ok(())
    }

    /// The active bindings: operations with the commits they hold.
    pub fn bound_commit_roots(&self) -> (roots: Vec<(OperationId, CommitId)>)
        ensures
            forall|i: int|
                0 <= i < roots@.len() ==> self.bindings().dom().contains((#[trigger] roots@[i]).0)
                    && self.bindings()[roots@[i].0] == (OperationBinding {
                    commit_id: roots@[i].1,
                    state: DagOperationBindingState::Active,
                }),
            forall|operation: OperationId| #[trigger]
                self.bindings().dom().contains(operation) && self.bindings()[operation].state is Active
                    ==> exists|i: int|
                    0 <= i < roots@.len() && (#[trigger] roots@[i]).0 == operation,
    {
        let mut roots: Vec<(OperationId, CommitId)> = Vec::new();
        let ghost items = self.operation_commits.items();
        let mut i: usize = 0;
        while i < self.operation_commits.len()
            invariant
                i <= items.len(),
                items == self.operation_commits.items(),
                self.bindings() == as_map(items),
                forall|k: int|
                    0 <= k < roots@.len() ==> self.bindings().dom().contains(
                        (#[trigger] roots@[k]).0,
                    ) && self.bindings()[roots@[k].0] == (OperationBinding {
                        commit_id: roots@[k].1,
                        state: DagOperationBindingState::Active,
                    }),
                forall|j: int|
                    0 <= j < i && (#[trigger] items[j]).1.state is Active ==> exists|k: int|
                        0 <= k < roots@.len() && (#[trigger] roots@[k]).0 == items[j].0,
            decreases items.len() - i,
        {
            let operation = *self.operation_commits.key_at(i);
            let binding = *self.operation_commits.value_at(i);
            let ghost before = roots@;
            if binding.state == DagOperationBindingState::Active {
                roots.push((operation, binding.commit_id));
            }
            proof {
                assert forall|j: int|
                    0 <= j < i + 1 && (#[trigger] items[j]).1.state is Active implies exists|k: int|
                    0 <= k < roots@.len() && (#[trigger] roots@[k]).0 == items[j].0 by {
                    if j < i {
                        let k = choose|k: int|
                            0 <= k < before.len() && (#[trigger] before[k]).0 == items[j].0;
                        assert(roots@[k] == before[k]);
                    } else {
                        assert(roots@[roots@.len() - 1].0 == items[j].0);
                    }
                }
            }
            i = i + 1;
        }
        proof {
            assert forall|operation: OperationId| #[trigger]
                self.bindings().dom().contains(operation) && self.bindings()[operation].state is Active implies exists|
                k: int,
            | 0 <= k < roots@.len() && (#[trigger] roots@[k]).0 == operation by {
                let j = crate::table::position(items, operation);
                assert(items[j].0 == operation);
            }
        }
        roots
    }

    /// What is there after a crash: nodes and bindings are durable as soon as they
    /// are added.
    pub fn crash_reopen(&self) -> (reopened: Self)
        ensures
            reopened.graph() == self.graph(),
            reopened.bindings() == self.bindings(),
    {
        self.clone()
    }
}

/// A binding, once made, never changes its commit: whatever is bound or tombstoned
/// afterwards, binding the operation again succeeds for that commit alone.
pub proof fn law_binding_is_permanent(
    graph: Graph,
    bindings: Map<OperationId, OperationBinding>,
    operation: OperationId,
    commit_id: CommitId,
    other: CommitId,
)
    requires
        bindings.dom().contains(operation),
        bindings[operation].commit_id == commit_id,
        other != commit_id,
    ensures
        bind_problem(graph, bindings, operation, other) is Some,
        bind_problem(graph, with_tombstone(bindings, operation), operation, other) is Some,
        with_tombstone(bindings, operation)[operation].commit_id == commit_id,
{
}

/// A tombstone is final: the binding is active no more and can be read as
/// tombstoned with the receipt it always had.
pub proof fn law_tombstone_keeps_receipt(
    graph: Graph,
    bindings: Map<OperationId, OperationBinding>,
    operation: OperationId,
    receipt: CommitReceipt,
    state: DagOperationBindingState,
)
    requires
        bound(graph, bindings, operation) == Some((receipt, state)),
    ensures
        bound(graph, with_tombstone(bindings, operation), operation) == Some(
            (receipt, DagOperationBindingState::Tombstoned),
        ),
        with_tombstone(with_tombstone(bindings, operation), operation) == with_tombstone(
            bindings,
            operation,
        ),
{
    assert(with_tombstone(with_tombstone(bindings, operation), operation) =~= with_tombstone(
        bindings,
        operation,
    ));
}

} // verus!
