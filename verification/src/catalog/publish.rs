//! The protocol by which a version is published.
use vstd::prelude::*;
use vstd::string::*;

use crate::bytes::same_id;
use crate::catalog::dag::{Dag, DagOperationBindingState};
use crate::catalog::dag_bind::bound;
use crate::catalog::ids::{
    same_optional_id, CommitId, CommitReceipt, DurableDagReceipt, FileId, OperationId, PrincipalId,
    VersionId,
};
use crate::catalog::model::{find_version, next, publish_fingerprint, shown, ModelCatalog};
use crate::catalog::rules::{
    abort_outcome, add_intent, after_publish, begin_again, begin_publish_outcome, bind_outcome,
    commit_named, ended_problem, fenced, file_problem, give_up_outcome, identity_problem,
    publish_outcome, publish_ready, publish_request, published, recovery_abort_outcome,
    register_outcome, stored_end, tombstoned, unless, versions_of, CatalogView,
};
use crate::catalog::types::{
    lemma_token, Candidate, Capability, CatalogError, CatalogHandoff, DagBindingState, FenceToken,
    File, FileVersion, Head, IndexState, OperationKind, OperationRecord, OperationResult,
    PublicPublishIntent, PublishIntent, RecoveryAuthority,
};
use crate::table::{lemma_views_insert, position};

verus! {

broadcast use {lemma_token, lemma_views_insert};

impl ModelCatalog {
    /// Whether the record vouches for the request, whatever its end was.
    fn require_operation_identity(
        &self,
        op: OperationId,
        actor: PrincipalId,
        kind: OperationKind,
        fingerprint: [u8; 32],
    ) -> (r: Result<(), CatalogError>)
        ensures
            r == unless(identity_problem(self@, op, actor, kind, fingerprint)),
    {
        match self.operations.get(&op) {
            Some(record) => {
                if record.operation_id == op && record.kind == kind && record.actor == actor
                    && same_id(&record.request_fingerprint, &fingerprint) {
                    Ok(())
                } else {
                    Err(CatalogError::OperationConflict)
                }
            },
            None => Err(CatalogError::NotFound),
        }
    }

    /// An ended intent counts only with its durable end. Claims play no part here.
    fn require_terminal_operation(&self, op: OperationId) -> (r: Result<(), CatalogError>)
        ensures
            r == unless(ended_problem(self@, op)),
    {
        match self.operations.get(&op) {
            Some(record) => {
                if record.result.is_some() || record.error.is_some() {
                    Ok(())
                } else {
                    Err(CatalogError::InvalidIntent)
                }
            },
            None => Err(CatalogError::NotFound),
        }
    }

    fn terminal_publish_result(&self, op: OperationId) -> (r: Result<FileVersion, CatalogError>)
        ensures
            r == stored_end(self@, op),
    {
        match self.operations.get(&op) {
            Some(record) => match (record.result, record.error) {
                (Some(OperationResult::Version(version)), None) => Ok(version),
                (_, Some(error)) => Err(error),
                _ => Err(CatalogError::InvalidIntent),
            },
            None => Err(CatalogError::NotFound),
        }
    }

    fn begin_existing(
        &self,
        actor: PrincipalId,
        file: FileId,
        op: OperationId,
        expected: Head,
        fence: Option<FenceToken>,
        request: [u8; 32],
    ) -> (r: Result<PublicPublishIntent, CatalogError>)
        requires
            self@.operations.dom().contains(op),
            request == publish_request(actor, file, expected),
        ensures
            shown(r) == begin_again(self@, actor, file, op, expected, fence),
    {
        let intent = match self.intents.get(&op) {
            Some(intent) => intent,
            None => {
                match self.operations.get(&op) {
                    Some(record) => {
                        if record.kind != OperationKind::Publish || record.actor != actor
                            || !same_id(&record.request_fingerprint, &request) {
                            return Err(CatalogError::OperationConflict);
                        }
                        if let Some(error) = record.error {
                            return Err(error);
                        }
                    },
                    None => {},
                }
                return Err(CatalogError::InvalidIntent);
            },
        };
        match self.authorize_publish_actor(actor, intent) {
            Err(error) => {
                return Err(error);
            },
            Ok(_) => {},
        }
        match self.require_operation_identity(op, actor, OperationKind::Publish, request) {
            Err(error) => {
                return Err(error);
            },
            Ok(_) => {},
        }
        if intent.state.terminal() {
            match self.require_terminal_operation(op) {
                Err(error) => {
                    return Err(error);
                },
                Ok(_) => {},
            }
            return Ok(PublicPublishIntent::of(intent));
        }
        match fence {
            Some(fence) => match self.require_fence(intent, fence) {
                Err(error) => Err(error),
                Ok(_) => Ok(PublicPublishIntent::of(intent)),
            },
            None => Err(CatalogError::FenceLost),
        }
    }

    fn allocate_fence(&mut self) -> (r: Result<FenceToken, CatalogError>)
        ensures
            if old(self)@.next_fence_nonce == u64::MAX {
                r == Err::<FenceToken, CatalogError>(CatalogError::IdExhausted) && final(self)@
                    == old(self)@
            } else {
                r == Ok::<FenceToken, CatalogError>(
                    FenceToken::of(old(self)@.coordinator_epoch, old(self)@.next_fence_nonce),
                ) && final(self)@ == (CatalogView {
                    next_fence_nonce: (old(self)@.next_fence_nonce + 1) as u64,
                    ..old(self)@
                })
            },
    {
        match next(&mut self.next_fence_nonce) {
            Ok(nonce) => Ok(FenceToken::new(self.coordinator_epoch, nonce)),
            Err(error) => Err(error),
        }
    }

    fn add_intent(
        &mut self,
        actor: PrincipalId,
        file: FileId,
        op: OperationId,
        expected: Head,
    ) -> (r: Result<PublicPublishIntent, CatalogError>)
        ensures
            (shown(r), final(self)@) == add_intent(old(self)@, actor, file, op, expected),
    {
        match self.auth_file(actor, file, Capability::Write) {
            Err(error) => {
                return Err(error);
            },
            Ok(_) => {},
        }
        match self.files.get(&file) {
            Some(found) => {
                if found.head != expected {
                    return Err(CatalogError::HeadConflict);
                }
            },
            None => {
                return Err(CatalogError::NotFound);
            },
        }
        let authz_epoch: u64 = match self.principals.get(&actor) {
            Some(principal) => principal.authz_epoch,
            None => {
                return Err(CatalogError::NotFound);
            },
        };
        let version = match next(&mut self.next_version) {
            Ok(raw) => VersionId(raw),
            Err(error) => {
                return Err(error);
            },
        };
        if expected.generation == u64::MAX {
            return Err(CatalogError::GenerationExhausted);
        }
        let fence = match self.allocate_fence() {
            Ok(fence) => fence,
            Err(error) => {
                return Err(error);
            },
        };
        let intent = PublishIntent::begin(op, actor, file, authz_epoch, expected, version, fence);
        let public = PublicPublishIntent::of(&intent);
        self.put_intent(op, intent);
        Ok(public)
    }

    /// Begins a publication on the head that the actor expects. A retry of the same
    /// request is answered from what is recorded, and changes nothing.
    pub fn begin_publish(
        &mut self,
        actor: PrincipalId,
        file: FileId,
        op: OperationId,
        expected: Head,
        fence: Option<FenceToken>,
    ) -> (r: Result<PublicPublishIntent, CatalogError>)
        ensures
            (shown(r), final(self)@) == begin_publish_outcome(
                old(self)@,
                actor,
                file,
                op,
                expected,
                fence,
            ),
    {
        let request = publish_fingerprint(actor, file, expected);
        if self.operations.contains_key(&op) {
            return self.begin_existing(actor, file, op, expected, fence, request);
        }
        self.put_operation(
            op,
            OperationRecord {
                operation_id: op,
                actor,
                kind: OperationKind::Publish,
                request_fingerprint: request,
                result: None,
                error: None,
            },
        );
        match self.add_intent(actor, file, op, expected) {
            Ok(public) => Ok(public),
            Err(error) => {
                self.complete(op, Err(error));
                Err(error)
            },
        }
    }

    fn register(
        &mut self,
        actor: PrincipalId,
        op: OperationId,
        fence: FenceToken,
        receipt: CommitReceipt,
        durable: bool,
    ) -> (r: Result<CommitReceipt, CatalogError>)
        ensures
            (r, final(self)@) == register_outcome(old(self)@, actor, op, fence, receipt, durable),
    {
        match self.intents.get(&op) {
            Some(intent) => {
                match self.authorize_publish_actor(actor, intent) {
                    Err(error) => {
                        return Err(error);
                    },
                    Ok(_) => {},
                }
                match self.require_fence(intent, fence) {
                    Err(error) => {
                        return Err(error);
                    },
                    Ok(_) => {},
                }
                if intent.state.terminal() {
                    return Err(CatalogError::InvalidIntent);
                }
            },
            None => {
                return Err(CatalogError::NotFound);
            },
        }
        if receipt.operation_id != op {
            return Err(CatalogError::OperationConflict);
        }
        if !durable {
            return Err(CatalogError::ReceiptNotDurable);
        }
        match self.handoffs.get(&op) {
            Some(handoff) => {
                if !handoff.receipt.same(&receipt) {
                    return Err(CatalogError::OperationConflict);
                }
                return Ok(receipt);
            },
            None => {},
        }
        self.put_handoff(
            op,
            CatalogHandoff {
                receipt,
                state: IndexState::Active,
                has_roots: true,
                binding: DagBindingState::ReceiptCommitted,
            },
        );
        Ok(receipt)
    }

    /// Takes a receipt of the graph into the catalog. The graph stays the one source
    /// of the operation's binding.
    pub fn register_receipt(
        &mut self,
        actor: PrincipalId,
        op: OperationId,
        fence: FenceToken,
        dag: &Dag,
        handoff: DurableDagReceipt,
    ) -> (r: Result<CommitReceipt, CatalogError>)
        ensures
            (r, final(self)@) == register_outcome(
                old(self)@,
                actor,
                op,
                fence,
                handoff.inner(),
                bound(dag.graph(), dag.bindings(), handoff.inner().operation_id) == Some(
                    (handoff.inner(), DagOperationBindingState::Active),
                ),
            ),
    {
        let receipt = handoff.receipt();
        let durable = dag.receipt_is_active(&receipt);
        self.register(actor, op, fence, receipt, durable)
    }

    /// Takes in a receipt that its holder has verified against the durable log.
    pub fn register_verified_receipt(
        &mut self,
        actor: PrincipalId,
        op: OperationId,
        fence: FenceToken,
        handoff: DurableDagReceipt,
    ) -> (r: Result<CommitReceipt, CatalogError>)
        ensures
            (r, final(self)@) == register_outcome(
                old(self)@,
                actor,
                op,
                fence,
                handoff.inner(),
                true,
            ),
    {
        self.register(actor, op, fence, handoff.receipt(), true)
    }

    fn tombstone(&mut self, op: OperationId)
        ensures
            final(self)@ == tombstoned(old(self)@, op),
    {
        if let Some(found) = self.handoffs.get(&op) {
            let mut handoff = *found;
            handoff.state = IndexState::Tombstoned;
            handoff.has_roots = false;
            self.put_handoff(op, handoff);
        }
    }

    /// Gives an intent up, on the strength of the claim on it. An ended intent stays
    /// as it is.
    pub(crate) fn abort_inner(
        &mut self,
        op: OperationId,
        fence: FenceToken,
        reason: &str,
        error: Option<CatalogError>,
    ) -> (r: Result<(), CatalogError>)
        ensures
            (r, final(self)@) == give_up_outcome(old(self)@, op, fence, reason@, error),
    {
        let intent = match self.find_intent(op) {
            Some(intent) => intent,
            None => {
                return Err(CatalogError::NotFound);
            },
        };
        if intent.state.terminal() {
            return Ok(());
        }
        match self.require_fence(&intent, fence) {
            Err(error) => {
                return Err(error);
            },
            Ok(_) => {},
        }
        self.put_intent(op, intent.into_aborted(reason.to_owned()));
        self.tombstone(op);
        match error {
            Some(error) => {
                self.complete(op, Err(error));
            },
            None => {
                self.complete(op, Ok(OperationResult::Aborted));
            },
        }
        Ok(())
    }

    /// The commit of a version of a file.
    pub(crate) fn commit_of(&self, file: FileId, version: Option<VersionId>) -> (commit: Option<
        CommitId,
    >)
        ensures
            commit == commit_named(self@, file, version),
    {
        match version {
            Some(id) => match self.versions.get(&file) {
                Some(versions) => find_version(versions, id),
                None => None,
            },
            None => None,
        }
    }

    /// Attaches the receipt to the intent. The receipt must continue the version that
    /// the intent was begun on; where it does not, the intent is given up.
    pub fn bind_candidate(
        &mut self,
        actor: PrincipalId,
        op: OperationId,
        fence: FenceToken,
    ) -> (r: Result<PublicPublishIntent, CatalogError>)
        ensures
            (shown(r), final(self)@) == bind_outcome(old(self)@, actor, op, fence),
    {
        let ghost before = self@;
        let intent = match self.find_intent(op) {
            Some(intent) => intent,
            None => {
                return Err(CatalogError::NotFound);
            },
        };
        match self.authorize_publish_actor(actor, &intent) {
            Err(error) => {
                return Err(error);
            },
            Ok(_) => {},
        }
        match self.require_fence(&intent, fence) {
            Err(error) => {
                return Err(error);
            },
            Ok(_) => {},
        }
        if intent.state.terminal() {
            return Ok(PublicPublishIntent::of(&intent));
        }
        let mut handoff = match self.handoffs.get(&op) {
            Some(handoff) => *handoff,
            None => {
                return Err(CatalogError::NotFound);
            },
        };
        let parent = match intent.base {
            Some(head) => self.commit_of(intent.file, head.version_id),
            None => None,
        };
        if !same_optional_id(&handoff.receipt.parent, &parent) {
            match self.abort_inner(
                op,
                fence,
                "candidate parent mismatch",
                Some(CatalogError::CandidateMismatch),
            ) {
                Err(error) => {
                    return Err(error);
                },
                Ok(_) => {},
            }
            return Err(CatalogError::CandidateMismatch);
        }
        let attached = intent.with_candidate(handoff.receipt);
        let public = PublicPublishIntent::of(&attached);
        handoff.binding = DagBindingState::Bound;
        self.put_intent(op, attached);
        self.put_handoff(op, handoff);
        Ok(public)
    }

    /// Whether the commit is a published version of the file.
    fn already_published(&self, file: FileId, commit: &CommitId) -> (found: bool)
        ensures
            found == published(self@, file, *commit),
    {
        let n: usize = self.versions.len();
        let mut i: usize = 0;
        while i < n
            invariant
                i <= n == self.versions.items().len(),
                forall|j: int, k: int|
                    0 <= j < i && 0 <= k < self.versions.items()[j].1@.len() ==> !((
                    #[trigger] self.versions.items()[j].1@[k]).file == file
                        && self.versions.items()[j].1@[k].commit_id == *commit),
            decreases n - i,
        {
            let list = self.versions.value_at(i);
            let mut k: usize = 0;
            while k < list.len()
                invariant
                    i < n == self.versions.items().len(),
                    *list == self.versions.items()[i as int].1,
                    self.versions@.dom().contains(self.versions.items()[i as int].0),
                    self.versions@[self.versions.items()[i as int].0] == *list,
                    k <= list@.len(),
                    forall|m: int|
                        0 <= m < k ==> !((#[trigger] list@[m]).file == file && list@[m].commit_id
                            == *commit),
                decreases list@.len() - k,
            {
                if list[k].file == file && same_id(&list[k].commit_id, commit) {
                    proof {
                        let of = self.versions.items()[i as int].0;
                        assert(self@.versions.dom().contains(of));
                        assert(self@.versions[of] == list@);
                        assert(self@.versions[of][k as int].file == file);
                    }
                    return true;
                }
                k = k + 1;
            }
            i = i + 1;
        }
        proof {
            assert forall|of: FileId, k: int|
                self@.versions.dom().contains(of) && 0 <= k < self@.versions[of].len() implies !((
            #[trigger] self@.versions[of][k]).file == file && self@.versions[of][k].commit_id
                == *commit) by {
                let j = position(self.versions.items(), of);
                assert(self.versions.items()[j].0 == of);
                assert(self.versions.items()[j].1@[k] == self@.versions[of][k]);
            }
        }
        false
    }

    /// Publishes an intent whose claim and receipt are in order.
    fn publish_checked(
        &mut self,
        op: OperationId,
        fence: FenceToken,
        intent: PublishIntent,
        candidate: Candidate,
    ) -> (r: Result<FileVersion, CatalogError>)
        requires
            old(self)@.intents.dom().contains(op),
            intent@ == old(self)@.intents[op],
            !intent@.state.ended(),
            fenced(old(self)@, intent@, fence),
            file_problem(old(self)@, intent@.actor, intent@.file, Capability::Write) is None,
        ensures
            (r, final(self)@) == publish_ready(old(self)@, op, intent@, candidate),
    {
        let ghost before = self@;
        let authz_epoch: u64 = match self.principals.get(&intent.actor) {
            Some(principal) => principal.authz_epoch,
            None => {
                return Err(CatalogError::NotFound);
            },
        };
        let file = match self.files.get(&intent.file) {
            Some(file) => file.clone(),
            None => {
                return Err(CatalogError::NotFound);
            },
        };
        let mut conflict: Option<(&str, CatalogError)> = None;
        if authz_epoch != intent.authz_epoch {
            conflict = Some(("authorization changed", CatalogError::AuthzEpochChanged));
        } else if file.head != intent.expected_head {
            conflict = Some(("head CAS failed", CatalogError::HeadConflict));
        } else if self.already_published(intent.file, &candidate.receipt.commit_id) {
            conflict = Some(("duplicate Commit", CatalogError::DuplicateCommit));
        }
        if let Some((reason, error)) = conflict {
            return match self.abort_inner(op, fence, reason, Some(error)) {
                Err(error) => Err(error),
                Ok(_) => Err(error),
            };
        }
        let generation: u64 = match intent.expected_head.generation.checked_add(1) {
            Some(generation) => generation,
            None => {
                return Err(CatalogError::GenerationExhausted);
            },
        };
        let version = FileVersion {
            id: candidate.version_id,
            file: intent.file,
            generation,
            commit_id: candidate.receipt.commit_id,
            parent_version_id: intent.expected_head.version_id,
            size: candidate.receipt.snapshot_size,
            digest: candidate.receipt.snapshot_digest,
        };
        self.record_version(op, intent, file, version);
        Ok(version)
    }

    /// Records a version as the head of its file and the end of its intent.
    fn record_version(
        &mut self,
        op: OperationId,
        intent: PublishIntent,
        file: File,
        version: FileVersion,
    )
        requires
            old(self)@.intents.dom().contains(op),
            intent@ == old(self)@.intents[op],
            file@ == old(self)@.files[intent@.file],
        ensures
            final(self)@ == after_publish(old(self)@, op, version),
    {
        let ghost before = self@;
        let of: FileId = intent.file;
        let mut versions = match self.versions.take(&of) {
            Some(versions) => versions,
            None => Vec::new(),
        };
        proof {
            assert(versions@ =~= versions_of(before, of));
        }
        versions.push(version);
        self.versions.insert(of, versions);
        let mut file = file;
        file.head = Head { version_id: Some(version.id), generation: version.generation };
        self.files.insert(of, file);
        proof {
            assert(self@.versions =~= before.versions.insert(
                of,
                versions_of(before, of).push(version),
            ));
        }
        self.put_intent(op, intent.into_published());
        self.tombstone(op);
        self.complete(op, Ok(OperationResult::Version(version)));
    }

    /// Publishes the candidate of an intent as the next version of its file, if the
    /// head is still the one that the intent was begun on and the actor's
    /// authorization has not changed since. Once it has ended, a retry is answered
    /// with the recorded end.
    pub fn publish(
        &mut self,
        actor: PrincipalId,
        op: OperationId,
        fence: Option<FenceToken>,
    ) -> (r: Result<FileVersion, CatalogError>)
        ensures
            (r, final(self)@) == publish_outcome(old(self)@, actor, op, fence),
    {
        let intent = match self.find_intent(op) {
            Some(intent) => intent,
            None => {
                return Err(CatalogError::NotFound);
            },
        };
        match self.authorize_publish_actor(actor, &intent) {
            Err(error) => {
                return Err(error);
            },
            Ok(_) => {},
        }
        let request = publish_fingerprint(intent.actor, intent.file, intent.expected_head);
        match self.require_operation_identity(op, intent.actor, OperationKind::Publish, request) {
            Err(error) => {
                return Err(error);
            },
            Ok(_) => {},
        }
        if intent.state.terminal() {
            return self.terminal_publish_result(op);
        }
        let fence = match fence {
            Some(fence) => fence,
            None => {
                return Err(CatalogError::FenceLost);
            },
        };
        match self.require_fence(&intent, fence) {
            Err(error) => {
                return Err(error);
            },
            Ok(_) => {},
        }
        let candidate = match intent.candidate {
            Some(candidate) => candidate,
            None => {
                return Err(CatalogError::InvalidIntent);
            },
        };
        match self.handoffs.get(&op) {
            Some(handoff) => {
                if handoff.binding != DagBindingState::Bound || !handoff.receipt.same(
                    &candidate.receipt,
                ) {
                    return Err(CatalogError::ReceiptNotDurable);
                }
            },
            None => {
                return Err(CatalogError::ReceiptNotDurable);
            },
        }
        self.publish_checked(op, fence, intent, candidate)
    }

    /// Gives the actor's own intent up.
    pub fn abort(&mut self, op: OperationId, actor: PrincipalId, fence: Option<FenceToken>) -> (r:
        Result<PublicPublishIntent, CatalogError>)
        ensures
            (shown(r), final(self)@) == abort_outcome(old(self)@, op, actor, fence),
    {
        let intent = match self.find_intent(op) {
            Some(intent) => intent,
            None => {
                return Err(CatalogError::NotFound);
            },
        };
        match self.authorize_publish_actor(actor, &intent) {
            Err(error) => {
                return Err(error);
            },
            Ok(_) => {},
        }
        let request = publish_fingerprint(intent.actor, intent.file, intent.expected_head);
        match self.require_operation_identity(op, intent.actor, OperationKind::Publish, request) {
            Err(error) => {
                return Err(error);
            },
            Ok(_) => {},
        }
        if intent.state.terminal() {
            match self.require_terminal_operation(op) {
                Err(error) => {
                    return Err(error);
                },
                Ok(_) => {},
            }
            return Ok(PublicPublishIntent::of(&intent));
        }
        let fence = match fence {
            Some(fence) => fence,
            None => {
                return Err(CatalogError::FenceLost);
            },
        };
        match self.require_fence(&intent, fence) {
            Err(error) => {
                return Err(error);
            },
            Ok(_) => {},
        }
        match self.abort_inner(op, fence, "caller abort", None) {
            Err(error) => {
                return Err(error);
            },
            Ok(_) => {},
        }
        self.show_intent(op)
    }

    pub(crate) fn show_intent(&self, op: OperationId) -> (r: Result<
        PublicPublishIntent,
        CatalogError,
    >)
        ensures
            shown(r) == if self@.intents.dom().contains(op) {
                Ok(self@.intents[op].public())
            } else {
                Err(CatalogError::NotFound)
            },
    {
        match self.intents.get(&op) {
            Some(intent) => Ok(PublicPublishIntent::of(intent)),
            None => Err(CatalogError::NotFound),
        }
    }

    /// Gives an intent up in the name of recovery.
    pub fn recovery_abort(
        &mut self,
        _recovery: &RecoveryAuthority,
        op: OperationId,
        fence: FenceToken,
        reason: &str,
    ) -> (r: Result<PublicPublishIntent, CatalogError>)
        ensures
            (shown(r), final(self)@) == recovery_abort_outcome(old(self)@, op, fence, reason@),
    {
        match self.abort_inner(op, fence, reason, Some(CatalogError::InvalidIntent)) {
            Err(error) => {
                return Err(error);
            },
            Ok(_) => {},
        }
        self.show_intent(op)
    }

    /// Claims an open intent that nobody has claimed.
    pub(crate) fn claim_recovery_fence(&mut self, op: OperationId) -> (r: Result<
        FenceToken,
        CatalogError,
    >)
        ensures
            (r, final(self)@) == crate::catalog::rules::claim_outcome(old(self)@, op),
    {
        let intent = match self.find_intent(op) {
            Some(intent) => intent,
            None => {
                return Err(CatalogError::NotFound);
            },
        };
        if intent.state.terminal() {
            return Err(CatalogError::InvalidIntent);
        }
        if intent.fence().is_some() {
            return Err(CatalogError::FenceLost);
        }
        let fence = match self.allocate_fence() {
            Ok(fence) => fence,
            Err(error) => {
                return Err(error);
            },
        };
        self.put_intent(op, intent.with_fence(Some(fence)));
        Ok(fence)
    }
}

} // verus!
