//! Recovery after a crash, readers, and what can be reclaimed.
use vstd::prelude::*;
use vstd::string::*;

use crate::catalog::dag::Dag;
use crate::catalog::dag_reach::{closure_answer, reaches};
use crate::catalog::graph::Graph;
use crate::catalog::ids::{
    CatalogTerminalPermit, CommitId, CommitReceipt, FileId, NodeId, OperationId, PrincipalId,
    VersionId,
};
use crate::catalog::model::{copy_versions, holds_version, shown, ModelCatalog};
use crate::catalog::rules::{
    active_receipt, file_problem, intent_problem, is_root, lists_intents, permit_problem, pins,
    query_problem, reader_problem, reclaimable, reconciled, recover_all, recover_outcome,
    recovery_reason, release_all, release_one, resume_outcome, unless, unpinned, versions_of,
    CatalogView,
};
use crate::catalog::types::{
    lemma_token, Capability, CatalogError, CatalogHandoff, DagBindingState, FenceToken, FileVersion,
    Head, IndexState, IntentState, OperationRecord, PrincipalState, PublicPublishIntent,
    RecoveryAuthority, SystemAuthority,
};
use crate::table::{distinct_keys, has_key, lemma_views_insert, position, Key};

verus! {

broadcast use {lemma_token, lemma_views_insert};

/// The reason recorded when recovery gives an intent up.
fn reason_of(error: CatalogError) -> (reason: &'static str)
    ensures
        reason@ == recovery_reason(error),
{
    match error {
        CatalogError::AuthzEpochChanged => "authorization changed during recovery",
        CatalogError::PermissionDenied => "authorization denied during recovery",
        CatalogError::PrincipalDisabled => "authorization denied during recovery",
        _ => "recovery could not safely publish",
    }
}

impl ModelCatalog {
    /// Carries a claimed intent to its publication with the receipt of the graph.
    fn resume(&mut self, op: OperationId, fence: FenceToken, receipt: CommitReceipt) -> (r: Result<
        (),
        CatalogError,
    >)
        requires
            old(self)@.intents.dom().contains(op),
        ensures
            (r, final(self)@) == resume_outcome(old(self)@, op, fence, receipt),
    {
        let actor: PrincipalId = match self.intents.get(&op) {
            Some(intent) => {
                let actor = intent.actor;
                match self.authorize_publish_actor(actor, intent) {
                    Err(error) => {
                        return Err(error);
                    },
                    Ok(_) => {},
                }
                actor
            },
            None => {
                return Err(CatalogError::NotFound);
            },
        };
        match self.handoffs.get(&op) {
            Some(handoff) => {
                if !handoff.receipt.same(&receipt) {
                    return Err(CatalogError::OperationConflict);
                }
            },
            None => {
                self.put_handoff(
                    op,
                    CatalogHandoff {
                        receipt,
                        state: IndexState::Active,
                        has_roots: true,
                        binding: DagBindingState::ReceiptCommitted,
                    },
                );
            },
        }
        match self.bind_candidate(actor, op, fence) {
            Err(error) => {
                return Err(error);
            },
            Ok(_) => {},
        }
        match self.publish(actor, op, Some(fence)) {
            Err(error) => Err(error),
            Ok(_) => Ok(()),
        }
    }

    /// Recovers an open intent that nobody has claimed. With a binding that survived
    /// in the graph it is published; without one, or where it cannot be published
    /// safely, it is given up. It is never left open once it was claimed.
    pub fn recover(&mut self, _recovery: &RecoveryAuthority, dag: &Dag, op: OperationId) -> (r:
        Result<PublicPublishIntent, CatalogError>)
        ensures
            (shown(r), final(self)@) == recover_outcome(
                old(self)@,
                active_receipt(dag.graph(), dag.bindings(), op),
                op,
            ),
    {
        match self.intents.get(&op) {
            Some(intent) => {
                if intent.state.terminal() {
                    return Ok(PublicPublishIntent::of(intent));
                }
            },
            None => {
                return Err(CatalogError::NotFound);
            },
        }
        let binding = dag.operation_binding(op);
        let fence = match self.claim_recovery_fence(op) {
            Ok(fence) => fence,
            Err(error) => {
                return Err(error);
            },
        };
        let receipt = match binding {
            Some(handoff) => handoff.receipt(),
            None => {
                match self.abort_inner(
                    op,
                    fence,
                    "DAG operation binding missing during recovery",
                    Some(CatalogError::InvalidIntent),
                ) {
                    Err(error) => {
                        return Err(error);
                    },
                    Ok(_) => {},
                }
                return self.show_intent(op);
            },
        };
        let ghost claimed = self@;
        match self.resume(op, fence, receipt) {
            Ok(_) => self.show_intent(op),
            Err(error) => {
                proof {
                    lemma_resume_keeps_claim(claimed, op, fence, receipt);
                }
                match self.abort_inner(op, fence, reason_of(error), Some(error)) {
                    Err(error) => Err(error),
                    Ok(_) => Err(error),
                }
            },
        }
    }

    /// The identifiers of all intents.
    fn intent_ids(&self) -> (ops: Vec<OperationId>)
        ensures
            lists_intents(self@, ops@),
    {
        let mut ops: Vec<OperationId> = Vec::new();
        let n: usize = self.intents.len();
        let mut i: usize = 0;
        while i < n
            invariant
                i <= n == self.intents.items().len(),
                distinct_keys(self.intents.items()),
                ops@.len() == i,
                forall|j: int| 0 <= j < i ==> #[trigger] ops@[j] == self.intents.items()[j].0,
            decreases n - i,
        {
            ops.push(*self.intents.key_at(i));
            i = i + 1;
        }
        proof {
            assert forall|op: OperationId| #[trigger]
                ops@.contains(op) == self@.intents.dom().contains(op) by {
                if ops@.contains(op) {
                    let j = choose|j: int| 0 <= j < ops@.len() && ops@[j] == op;
                    assert(has_key(self.intents.items(), op));
                }
                if has_key(self.intents.items(), op) {
                    let j = position(self.intents.items(), op);
                    assert(ops@[j] == op);
                }
            }
        }
        ops
    }

    /// Recovers the intents that are still open.
    fn recover_open(&mut self, dag: &Dag, ops: &Vec<OperationId>) -> (r: Result<(), CatalogError>)
        ensures
            (r, final(self)@) == recover_all(old(self)@, dag.graph(), dag.bindings(), ops@),
    {
        let recovery = RecoveryAuthority::grant();
        let ghost before = self@;
        let mut i: usize = 0;
        proof {
            assert(ops@.skip(0) =~= ops@);
        }
        while i < ops.len()
            invariant
                i <= ops@.len(),
                before == old(self)@,
                recover_all(before, dag.graph(), dag.bindings(), ops@) == recover_all(
                    self@,
                    dag.graph(),
                    dag.bindings(),
                    ops@.skip(i as int),
                ),
            decreases ops@.len() - i,
        {
            let op = ops[i];
            proof {
                assert(ops@.skip(i as int).drop_first() =~= ops@.skip(i + 1));
                assert(ops@.skip(i as int)[0] == op);
            }
            let open = match self.intents.get(&op) {
                Some(intent) => !intent.state.terminal(),
                None => false,
            };
            if open {
                let ghost middle = self@;
                match self.recover(&recovery, dag, op) {
                    Ok(_) => {},
                    Err(error) => {
                        proof {
                            lemma_recover_keeps_intents(
                                middle,
                                active_receipt(dag.graph(), dag.bindings(), op),
                                op,
                            );
                        }
                        let still_open = match self.intents.get(&op) {
                            Some(intent) => !intent.state.terminal(),
                            None => true,
                        };
                        if still_open {
                            return Err(error);
                        }
                    },
                }
            }
            i = i + 1;
        }
        Ok(())
    }

    /// Releases the binding of an ended operation in the graph.
    fn release(&self, dag: &mut Dag, op: OperationId) -> (r: Result<(), CatalogError>)
        ensures
            final(dag).graph() == old(dag).graph(),
            (r, final(dag).bindings()) == release_one(
                self@,
                old(dag).graph(),
                old(dag).bindings(),
                op,
            ),
    {
        let state = match self.intents.get(&op) {
            Some(intent) => intent.state,
            None => {
                return Ok(());
            },
        };
        if !state.terminal() {
            return Ok(());
        }
        let handoff = match self.handoffs.get(&op) {
            Some(handoff) => *handoff,
            None => {
                if state == IntentState::Aborted {
                    return Ok(());
                }
                return Err(CatalogError::InvalidIntent);
            },
        };
        match dag.operation_binding(op) {
            Some(binding) => {
                let permit = match self.terminal_permit(op) {
                    Ok(permit) => permit,
                    Err(error) => {
                        return Err(error);
                    },
                };
                match dag.tombstone_operation(op, binding, permit) {
                    Ok(_) => Ok(()),
                    Err(_) => Err(CatalogError::InvalidIntent),
                }
            },
            None => {
                if dag.receipt_is_tombstoned(&handoff.receipt) {
                    Ok(())
                } else {
                    Err(CatalogError::InvalidIntent)
                }
            },
        }
    }

    /// Reconciles catalog and graph after a reopen. What the catalog has ended
    /// counts; an active binding of an ended operation is cleanup that is still to be
    /// done. Open intents are recovered.
    pub fn reconcile_startup(&mut self, dag: &mut Dag) -> (r: Result<(), CatalogError>)
        ensures
            final(dag).graph() == old(dag).graph(),
            reconciled(
                old(self)@,
                old(dag).graph(),
                old(dag).bindings(),
                r,
                final(self)@,
                final(dag).bindings(),
            ),
    {
        let ghost before = self@;
        let ghost graph = dag.graph();
        let ghost bindings = dag.bindings();
        let ops = self.intent_ids();
        proof {
            assert(lists_intents(before, ops@));
        }
        match self.recover_open(dag, &ops) {
            Err(error) => {
                return Err(error);
            },
            Ok(done) => {
                assert(done == ());
            },
        }
        let mut i: usize = 0;
        proof {
            assert(ops@.skip(0) =~= ops@);
        }
        while i < ops.len()
            invariant
                i <= ops@.len(),
                dag.graph() == graph,
                release_all(self@, graph, bindings, ops@) == release_all(
                    self@,
                    graph,
                    dag.bindings(),
                    ops@.skip(i as int),
                ),
                lists_intents(before, ops@),
                recover_all(before, graph, bindings, ops@) == (
                    Ok::<(), CatalogError>(()),
                    self@,
                ),
                before == old(self)@,
                graph == old(dag).graph(),
                bindings == old(dag).bindings(),
            decreases ops@.len() - i,
        {
            proof {
                assert(ops@.skip(i as int).drop_first() =~= ops@.skip(i + 1));
                assert(ops@.skip(i as int)[0] == ops@[i as int]);
            }
            match self.release(dag, ops[i]) {
                Err(error) => {
                    return Err(error);
                },
                Ok(_) => {},
            }
            i = i + 1;
        }
        Ok(())
    }

    pub fn head(&self, actor: PrincipalId, file: FileId) -> (r: Result<Head, CatalogError>)
        ensures
            r == match file_problem(self@, actor, file, Capability::Read) {
                Some(error) => Err(error),
                None => Ok(self@.files[file].head),
            },
    {
        match self.auth_file(actor, file, Capability::Read) {
            Err(error) => Err(error),
            Ok(_) => match self.files.get(&file) {
                Some(file) => Ok(file.head),
                None => Err(CatalogError::NotFound),
            },
        }
    }

    pub fn list_versions(&self, actor: PrincipalId, file: FileId) -> (r: Result<
        Vec<FileVersion>,
        CatalogError,
    >)
        ensures
            match file_problem(self@, actor, file, Capability::Read) {
                Some(error) => r == Err::<Vec<FileVersion>, CatalogError>(error),
                None => r is Ok && r->Ok_0@ == versions_of(self@, file),
            },
    {
        match self.auth_file(actor, file, Capability::Read) {
            Err(error) => Err(error),
            Ok(_) => match self.versions.get(&file) {
                Some(versions) => Ok(copy_versions(versions)),
                None => Ok(Vec::new()),
            },
        }
    }

    pub fn query_operation(&self, actor: PrincipalId, op: OperationId) -> (r: Result<
        Option<&OperationRecord>,
        CatalogError,
    >)
        ensures
            match query_problem(self@, actor, op) {
                Some(error) => r == Err::<Option<&OperationRecord>, CatalogError>(error),
                None => r is Ok && match r->Ok_0 {
                    Some(record) => self@.operations.dom().contains(op) && *record
                        == self@.operations[op],
                    None => !self@.operations.dom().contains(op),
                },
            },
    {
        let record = self.operations.get(&op);
        if let Some(record) = record {
            if record.actor != actor {
                return Err(CatalogError::PermissionDenied);
            }
        }
        match self.principals.get(&actor) {
            Some(principal) => {
                if principal.state == PrincipalState::Disabled {
                    return Err(CatalogError::PrincipalDisabled);
                }
            },
            None => {
                return Err(CatalogError::NotFound);
            },
        }
        Ok(record)
    }

    pub fn intent(&self, actor: PrincipalId, op: OperationId) -> (r: Result<
        PublicPublishIntent,
        CatalogError,
    >)
        ensures
            shown(r) == match intent_problem(self@, actor, op) {
                Some(error) => Err(error),
                None => Ok(self@.intents[op].public()),
            },
    {
        let intent = match self.intents.get(&op) {
            Some(intent) => intent,
            None => {
                return Err(CatalogError::NotFound);
            },
        };
        match self.principals.get(&actor) {
            Some(principal) => {
                if principal.state == PrincipalState::Disabled {
                    return Err(CatalogError::PrincipalDisabled);
                }
            },
            None => {
                return Err(CatalogError::NotFound);
            },
        }
        if actor != intent.actor {
            return Err(CatalogError::PermissionDenied);
        }
        Ok(PublicPublishIntent::of(intent))
    }

    /// Lets a reader hold a version's commit.
    pub fn pin_reader(
        &mut self,
        actor: PrincipalId,
        file: FileId,
        version: VersionId,
        commit: CommitId,
    ) -> (r: Result<(), CatalogError>)
        requires
            pins(old(self)@, commit) < u64::MAX,
        ensures
            r == unless(
                reader_problem(old(self)@, actor, file, Some(version), Some(commit)),
            ),
            final(self)@ == if r is Ok {
                CatalogView {
                    reader_pins: old(self)@.reader_pins.insert(
                        commit,
                        (pins(old(self)@, commit) + 1) as u64,
                    ),
                    ..old(self)@
                }
            } else {
                old(self)@
            },
    {
        match self.validate_reader(actor, file, Some(version), Some(commit)) {
            Err(error) => {
                return Err(error);
            },
            Ok(_) => {},
        }
        let count: u64 = match self.reader_pins.get(&commit) {
            Some(count) => *count,
            None => 0,
        };
        self.reader_pins.insert(commit, count + 1);
        Ok(())
    }

    /// Whether a reader may read the version, or the file as it is before its first.
    pub fn validate_reader(
        &self,
        actor: PrincipalId,
        file: FileId,
        version: Option<VersionId>,
        commit: Option<CommitId>,
    ) -> (r: Result<(), CatalogError>)
        ensures
            r == unless(reader_problem(self@, actor, file, version, commit)),
    {
        let versions = match self.list_versions(actor, file) {
            Ok(versions) => versions,
            Err(error) => {
                return Err(error);
            },
        };
        match (version, commit) {
            (Some(version), Some(commit)) => {
                if holds_version(&versions, version, &commit) {
                    Ok(())
                } else {
                    Err(CatalogError::NotFound)
                }
            },
            (None, None) => Ok(()),
            _ => Err(CatalogError::NotFound),
        }
    }

    /// Lets a commit go that a reader held.
    pub fn unpin_reader(&mut self, commit: CommitId)
        requires
            old(self)@.reader_pins.dom().contains(commit) ==> old(self)@.reader_pins[commit] > 0,
        ensures
            final(self)@ == unpinned(old(self)@, commit),
    {
        let count: u64 = match self.reader_pins.get(&commit) {
            Some(count) => *count,
            None => {
                return ;
            },
        };
        if count == 1 {
            self.reader_pins.remove(&commit);
        } else {
            self.reader_pins.insert(commit, count - 1);
        }
    }

    /// Whether what the operation has committed can be reclaimed. Where a root is
    /// missing from the graph, nothing can.
    pub fn candidate_reclaimable(&self, dag: &Dag, op: OperationId) -> (r: bool)
        requires
            dag.wf(),
        ensures
            r == reclaimable(self@, dag.graph(), dag.bindings(), op),
    {
        let entry = match self.handoffs.get(&op) {
            Some(entry) => *entry,
            None => {
                return false;
            },
        };
        if entry.state != IndexState::Tombstoned || entry.has_roots || entry.binding
            != DagBindingState::Bound {
            return false;
        }
        if let Some(intent) = self.intents.get(&op) {
            if !intent.state.terminal() {
                return false;
            }
        }
        if !dag.receipt_is_tombstoned(&entry.receipt) {
            return false;
        }
        let roots = self.roots(dag, op);
        let commit = entry.receipt.commit_id;
        proof {
            lemma_closed(dag.graph(), roots@, commit);
            assert forall|root: NodeId| roots@.contains(root) == #[trigger] is_root(
                self@,
                dag.bindings(),
                op,
                root,
            ) by {}
            if closure_answer(dag.graph(), roots@, commit) == Some(false) {
                assert forall|root: NodeId| #[trigger]
                    is_root(self@, dag.bindings(), op, root) implies dag.graph().dom().contains(root)
                    && !reaches(dag.graph(), root, commit) by {
                    assert(roots@.contains(root));
                }
            } else {
                let i = choose|i: int|
                    0 <= i < roots@.len() && !(dag.graph().dom().contains(#[trigger] roots@[i])
                        && !reaches(dag.graph(), roots@[i], commit));
                assert(roots@.contains(roots@[i]));
                assert(is_root(self@, dag.bindings(), op, roots@[i]));
            }
        }
        match dag.root_closure_contains(&roots, commit) {
            Some(reached) => !reached,
            None => false,
        }
    }

    /// The catalog's word that an operation has ended, for the graph.
    pub fn terminal_permit(&self, op: OperationId) -> (r: Result<
        CatalogTerminalPermit,
        CatalogError,
    >)
        ensures
            match permit_problem(self@, op) {
                Some(error) => r == Err::<CatalogTerminalPermit, CatalogError>(error),
                None => r is Ok && r->Ok_0.inner() == self@.handoffs[op].receipt,
            },
    {
        let state = match self.intents.get(&op) {
            Some(intent) => intent.state,
            None => {
                return Err(CatalogError::NotFound);
            },
        };
        match self.handoffs.get(&op) {
            Some(handoff) => {
                if !state.terminal() || handoff.state != IndexState::Tombstoned || handoff.binding
                    != DagBindingState::Bound {
                    return Err(CatalogError::InvalidIntent);
                }
                Ok(CatalogTerminalPermit::new(handoff.receipt))
            },
            None => Err(CatalogError::NotFound),
        }
    }

    /// The authority of the recovery coordinator.
    pub fn recovery_authority() -> RecoveryAuthority {
        RecoveryAuthority::grant()
    }

    /// The authority of the process over principals.
    pub fn system_authority() -> SystemAuthority {
        SystemAuthority::grant()
    }
}

/// Resuming an intent either ends it or leaves the claim on it in place.
proof fn lemma_resume_keeps_claim(
    v: CatalogView,
    op: OperationId,
    fence: FenceToken,
    receipt: CommitReceipt,
)
    requires
        v.intents.dom().contains(op),
        crate::catalog::rules::fenced(v, v.intents[op], fence),
    ensures
        ({
            let w = resume_outcome(v, op, fence, receipt).1;
            &&& w.intents.dom().contains(op)
            &&& w.intents[op].state.ended() || crate::catalog::rules::fenced(
                w,
                w.intents[op],
                fence,
            )
        }),
{
}

/// Recovery forgets no intent.
proof fn lemma_recover_keeps_intents(
    v: CatalogView,
    binding: Option<CommitReceipt>,
    op: OperationId,
)
    requires
        v.intents.dom().contains(op),
    ensures
        recover_outcome(v, binding, op).1.intents.dom().contains(op),
{
}

/// The answer is a plain no exactly where every root is there and reaches nothing.
proof fn lemma_closed(graph: Graph, roots: Seq<NodeId>, target: NodeId)
    ensures
        closure_answer(graph, roots, target) == Some(false) <==> forall|i: int|
            0 <= i < roots.len() ==> graph.dom().contains(#[trigger] roots[i]) && !reaches(
                graph,
                roots[i],
                target,
            ),
    decreases roots.len(),
{
    if roots.len() > 0 {
        let rest = roots.drop_last();
        lemma_closed(graph, rest, target);
        assert(forall|i: int| 0 <= i < rest.len() ==> rest[i] == #[trigger] roots[i]);
        assert(roots.last() == roots[roots.len() - 1]);
        assert(forall|i: int| 0 <= i < rest.len() ==> #[trigger] rest[i] == roots[i]);
    }
}

} // verus!
