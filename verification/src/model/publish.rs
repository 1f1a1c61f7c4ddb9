//! Publication under one coordinator.
use vstd::prelude::*;
use vstd::string::*;

use crate::bytes::same_id;
use crate::catalog::dag::Dag;
use crate::catalog::ids::{
    same_optional_id, CommitId, CommitReceipt, FileId, OperationId, PrincipalId, VersionId,
};
use crate::catalog::model::{copy_versions, find_version, next, publish_fingerprint};
use crate::catalog::node::Node;
use crate::catalog::reopen::{copy_collections, copy_files, copy_histories};
use crate::catalog::types::{
    Candidate, CatalogError, File, FileVersion, Head, IndexState, IntentState, OperationKind,
    OperationRecord, OperationResult,
};
use crate::model::catalog::ModelCatalog;
use crate::model::rules::{
    abort_outcome, add_intent, after_publish, any_candidate, any_version, begin_publish_outcome,
    bind_outcome, claim_outcome, commit_named, fenced, give_up_outcome, publish_intent,
    publish_outcome, published, receipt_of, reclaimable, recover_outcome, recovery_abort_outcome,
    register_outcome, reopened, tombstoned, versions_of, BasicView,
};
use crate::model::types::{DagOperationIndexEntry, IntentView, PublishIntent};
use crate::table::{as_map, distinct_keys, lemma_grow, lemma_views_insert, position, views, Table};

verus! {

broadcast use lemma_views_insert;

/// An answer about an intent, taken by its view.
pub open spec fn shown(r: Result<PublishIntent, CatalogError>) -> Result<IntentView, CatalogError> {
    match r {
        Ok(intent) => Ok(intent@),
        Err(error) => Err(error),
    }
}

impl ModelCatalog {
    fn put_intent(&mut self, op: OperationId, intent: PublishIntent)
        ensures
            final(self)@ == (BasicView {
                intents: old(self)@.intents.insert(op, intent@),
                ..old(self)@
            }),
    {
        self.intents.insert(op, intent);
    }

    /// A copy of an intent.
    fn find_intent(&self, op: OperationId) -> (intent: Option<PublishIntent>)
        ensures
            match intent {
                Some(intent) => self@.intents.dom().contains(op) && intent@ == self@.intents[op],
                None => !self@.intents.dom().contains(op),
            },
    {
        match self.intents.get(&op) {
            Some(intent) => Some(intent.clone()),
            None => None,
        }
    }

    fn require_fence(&self, intent: &PublishIntent, fence: u64) -> (r: Result<(), CatalogError>)
        ensures
            r == if fenced(self@, intent@, fence) {
                Ok::<(), CatalogError>(())
            } else {
                Err(CatalogError::FenceLost)
            },
    {
        match intent.owner_fence {
            Some(claim) => {
                if claim == fence && fence == self.coordinator_epoch {
                    Ok(())
                } else {
                    Err(CatalogError::FenceLost)
                }
            },
            None => Err(CatalogError::FenceLost),
        }
    }

    fn add_intent(
        &mut self,
        actor: PrincipalId,
        file: FileId,
        op: OperationId,
        expected: Head,
    ) -> (r: Result<PublishIntent, CatalogError>)
        ensures
            (shown(r), final(self)@) == add_intent(old(self)@, actor, file, op, expected),
    {
        match self.auth_file(actor, file) {
            Err(error) => {
                return Err(error);
            },
            Ok(_) => {},
        }
        match self.files.get(&file) {
            Some(found) => {
                if found.head != expected {
                    return Err(CatalogError::HeadConflict);
                }
            },
            None => {
                return Err(CatalogError::NotFound);
            },
        }
        let authz_epoch: u64 = match self.principals.get(&actor) {
            Some(principal) => principal.authz_epoch,
            None => {
                return Err(CatalogError::NotFound);
            },
        };
        let version_id = match next(&mut self.next_version) {
            Ok(raw) => VersionId(raw),
            Err(error) => {
                return Err(error);
            },
        };
        if expected.generation == u64::MAX {
            return Err(CatalogError::GenerationExhausted);
        }
        let intent = PublishIntent {
            operation_id: op,
            actor,
            file,
            state: IntentState::Preparing,
            authz_epoch,
            global_authz_epoch: self.global_authz_epoch,
            expected_head: expected,
            base: match expected.version_id {
                Some(_) => Some(expected),
                None => None,
            },
            version_id,
            candidate: None,
            abort_reason: None,
            owner_fence: Some(self.coordinator_epoch),
            pinned: true,
        };
        let copy = intent.clone();
        self.put_intent(op, intent);
        Ok(copy)
    }

    /// Begins a publication on the head that the actor expects. A retry of the same
    /// request answers the intent as it is.
    pub fn begin_publish(
        &mut self,
        actor: PrincipalId,
        file: FileId,
        op: OperationId,
        expected: Head,
    ) -> (r: Result<PublishIntent, CatalogError>)
        ensures
            (shown(r), final(self)@) == begin_publish_outcome(
                old(self)@,
                actor,
                file,
                op,
                expected,
            ),
    {
        let request = publish_fingerprint(actor, file, expected);
        match self.operations.get(&op) {
            Some(record) => {
                if record.kind != OperationKind::Publish || record.actor != actor || !same_id(
                    &record.request_fingerprint,
                    &request,
                ) {
                    return Err(CatalogError::OperationConflict);
                }
                if let Some(error) = record.error {
                    return Err(error);
                }
                return match self.find_intent(op) {
                    Some(intent) => Ok(intent),
                    None => if record.result.is_some() {
                        Err(CatalogError::InvalidIntent)
                    } else {
                        Err(CatalogError::NotFound)
                    },
                };
            },
            None => {},
        }
        self.operations.insert(
            op,
            OperationRecord {
                operation_id: op,
                actor,
                kind: OperationKind::Publish,
                request_fingerprint: request,
                result: None,
                error: None,
            },
        );
        match self.add_intent(actor, file, op, expected) {
            Ok(intent) => Ok(intent),
            Err(error) => {
                self.complete(op, Err(error));
                Err(error)
            },
        }
    }

    /// Takes in the receipt of a commit that the graph holds with its snapshot.
    /// Everything in the receipt comes from the graph.
    pub fn register_receipt(
        &mut self,
        op: OperationId,
        fence: u64,
        dag: &Dag,
        commit_id: CommitId,
    ) -> (r: Result<CommitReceipt, CatalogError>)
        ensures
            (r, final(self)@) == register_outcome(old(self)@, dag.graph(), op, fence, commit_id),
    {
        match self.intents.get(&op) {
            Some(intent) => {
                if intent.state.terminal() {
                    return Err(CatalogError::InvalidIntent);
                }
                match self.require_fence(intent, fence) {
                    Err(error) => {
                        return Err(error);
                    },
                    Ok(_) => {},
                }
            },
            None => {
                return Err(CatalogError::NotFound);
            },
        }
        let receipt = match read_receipt(dag, op, commit_id) {
            Ok(receipt) => receipt,
            Err(error) => {
                return Err(error);
            },
        };
        match self.dag_index.get(&op) {
            Some(entry) => {
                if !entry.receipt.same(&receipt) {
                    return Err(CatalogError::OperationConflict);
                }
                return Ok(receipt);
            },
            None => {},
        }
        self.dag_index.insert(
            op,
            DagOperationIndexEntry { receipt, state: IndexState::Active, has_roots: true },
        );
        Ok(receipt)
    }

    fn tombstone(&mut self, op: OperationId)
        ensures
            final(self)@ == tombstoned(old(self)@, op),
    {
        if let Some(found) = self.dag_index.get(&op) {
            let mut entry = *found;
            entry.state = IndexState::Tombstoned;
            entry.has_roots = false;
            self.dag_index.insert(op, entry);
        }
    }

    fn abort_inner(
        &mut self,
        op: OperationId,
        fence: u64,
        reason: &str,
        error: Option<CatalogError>,
    ) -> (r: Result<(), CatalogError>)
        ensures
            (r, final(self)@) == give_up_outcome(old(self)@, op, fence, reason@, error),
    {
        let mut intent = match self.find_intent(op) {
            Some(intent) => intent,
            None => {
                return Err(CatalogError::NotFound);
            },
        };
        if intent.state.terminal() {
            return Ok(());
        }
        match self.require_fence(&intent, fence) {
            Err(error) => {
                return Err(error);
            },
            Ok(_) => {},
        }
        intent.state = IntentState::Aborted;
        intent.abort_reason = Some(reason.to_owned());
        intent.owner_fence = None;
        intent.pinned = false;
        self.put_intent(op, intent);
        self.tombstone(op);
        match error {
            Some(error) => {
                self.complete(op, Err(error));
            },
            None => {
                self.complete(op, Ok(OperationResult::Aborted));
            },
        }
        Ok(())
    }

    /// The commit of a version of a file.
    fn commit_of(&self, file: FileId, version: Option<VersionId>) -> (commit: Option<CommitId>)
        ensures
            commit == commit_named(self@, file, version),
    {
        match version {
            Some(id) => match self.versions.get(&file) {
                Some(versions) => find_version(versions, id),
                None => None,
            },
            None => None,
        }
    }

    /// Attaches the receipt to the intent. The receipt must continue the version that
    /// the intent was begun on; where it does not, the intent is given up.
    pub fn bind_candidate(&mut self, op: OperationId, fence: u64) -> (r: Result<
        PublishIntent,
        CatalogError,
    >)
        ensures
            (shown(r), final(self)@) == bind_outcome(old(self)@, op, fence),
    {
        let receipt = match self.dag_index.get(&op) {
            Some(entry) => entry.receipt,
            None => {
                return Err(CatalogError::NotFound);
            },
        };
        let mut intent = match self.find_intent(op) {
            Some(intent) => intent,
            None => {
                return Err(CatalogError::NotFound);
            },
        };
        if intent.state.terminal() {
            return Ok(intent);
        }
        match self.require_fence(&intent, fence) {
            Err(error) => {
                return Err(error);
            },
            Ok(_) => {},
        }
        let parent = match intent.base {
            Some(head) => self.commit_of(intent.file, head.version_id),
            None => None,
        };
        if !same_optional_id(&receipt.parent, &parent) {
            return match self.abort_inner(
                op,
                fence,
                "candidate parent mismatch",
                Some(CatalogError::CandidateMismatch),
            ) {
                Ok(_) => Err(CatalogError::CandidateMismatch),
                Err(error) => Err(error),
            };
        }
        intent.candidate = Some(Candidate { version_id: intent.version_id, receipt });
        intent.state = IntentState::CommitDurable;
        let copy = intent.clone();
        self.put_intent(op, intent);
        Ok(copy)
    }

    /// Whether the commit is a published version, of the file or of any.
    fn holds_commit(&self, file: Option<FileId>, commit: &CommitId) -> (found: bool)
        ensures
            found == match file {
                Some(file) => published(self@, file, *commit),
                None => any_version(self@, *commit),
            },
    {
        let n: usize = self.versions.len();
        let ghost items = self.versions.items();
        let mut i: usize = 0;
        while i < n
            invariant
                i <= n == items.len(),
                items == self.versions.items(),
                forall|j: int, k: int|
                    0 <= j < i && 0 <= k < items[j].1@.len() ==> !(#[trigger] hit(
                        items[j].1@[k],
                        file,
                        *commit,
                    )),
            decreases n - i,
        {
            let list = self.versions.value_at(i);
            let mut k: usize = 0;
            while k < list.len()
                invariant
                    i < n == items.len(),
                    items == self.versions.items(),
                    *list == items[i as int].1,
                    self.versions@.dom().contains(items[i as int].0),
                    self.versions@[items[i as int].0] == *list,
                    k <= list@.len(),
                    forall|m: int| 0 <= m < k ==> !(#[trigger] hit(list@[m], file, *commit)),
                decreases list@.len() - k,
            {
                let of_file = match file {
                    Some(file) => list[k].file == file,
                    None => true,
                };
                if of_file && same_id(&list[k].commit_id, commit) {
                    proof {
                        let of = items[i as int].0;
                        assert(self@.versions.dom().contains(of));
                        assert(self@.versions[of] == list@);
                        assert(self@.versions[of][k as int].commit_id == *commit);
                    }
                    return true;
                }
                assert(!hit(list@[k as int], file, *commit));
                k = k + 1;
            }
            i = i + 1;
        }
        proof {
            assert forall|of: FileId, k: int|
                self@.versions.dom().contains(of) && 0 <= k < self@.versions[of].len() implies !hit(
                #[trigger] self@.versions[of][k],
                file,
                *commit,
            ) by {
                let j = position(items, of);
                assert(items[j].0 == of);
                assert(items[j].1@[k] == self@.versions[of][k]);
                assert(!hit(items[j].1@[k], file, *commit));
            }
        }
        false
    }

    /// Publishes an intent that is claimed and bound.
    fn publish_bound(
        &mut self,
        op: OperationId,
        fence: u64,
        intent: PublishIntent,
        candidate: Candidate,
    ) -> (r: Result<FileVersion, CatalogError>)
        requires
            old(self)@.intents.dom().contains(op),
            intent@ == old(self)@.intents[op],
            !(intent@.state is Aborted),
            fenced(old(self)@, intent@, fence),
            intent@.candidate == Some(candidate),
        ensures
            (r, final(self)@) == publish_intent(old(self)@, op, fence),
    {
        let found = match self.files.get(&intent.file) {
            Some(file) => file.clone(),
            None => {
                return Err(CatalogError::NotFound);
            },
        };
        if !self.collections.contains_key(&found.collection) {
            return Err(CatalogError::NotFound);
        }
        match self.auth_file(intent.actor, intent.file) {
            Ok(_) => {},
            Err(_) => {
                return self.give_up(
                    op,
                    fence,
                    "authorization changed",
                    CatalogError::PermissionDenied,
                );
            },
        }
        let current = match self.principals.get(&intent.actor) {
            Some(principal) => principal.authz_epoch == intent.authz_epoch,
            None => false,
        };
        if !current || self.global_authz_epoch != intent.global_authz_epoch || found.head
            != intent.expected_head {
            return self.give_up(op, fence, "head CAS failed", CatalogError::HeadConflict);
        }
        if self.holds_commit(Some(intent.file), &candidate.receipt.commit_id) {
            return self.give_up(op, fence, "duplicate Commit", CatalogError::DuplicateCommit);
        }
        let generation: u64 = match intent.expected_head.generation.checked_add(1) {
            Some(generation) => generation,
            None => {
                return Err(CatalogError::GenerationExhausted);
            },
        };
        let version = FileVersion {
            id: candidate.version_id,
            file: intent.file,
            generation,
            commit_id: candidate.receipt.commit_id,
            parent_version_id: intent.expected_head.version_id,
            size: candidate.receipt.snapshot_size,
            digest: candidate.receipt.snapshot_digest,
        };
        self.record_version(op, intent, found, version);
        Ok(version)
    }

    fn give_up(&mut self, op: OperationId, fence: u64, reason: &str, error: CatalogError) -> (r:
        Result<FileVersion, CatalogError>)
        requires
            old(self)@.intents.dom().contains(op),
            fenced(old(self)@, old(self)@.intents[op], fence),
        ensures
            r == Err::<FileVersion, CatalogError>(error),
            final(self)@ == give_up_outcome(old(self)@, op, fence, reason@, Some(error)).1,
    {
        match self.abort_inner(op, fence, reason, Some(error)) {
            Ok(_) => Err(error),
            Err(other) => Err(other),
        }
    }

    /// Records a version as published.
    fn record_version(
        &mut self,
        op: OperationId,
        intent: PublishIntent,
        file: File,
        version: FileVersion,
    )
        requires
            old(self)@.intents.dom().contains(op),
            intent@ == old(self)@.intents[op],
            old(self)@.files.dom().contains(intent@.file),
            file@ == old(self)@.files[intent@.file],
        ensures
            final(self)@ == after_publish(old(self)@, op, version),
    {
        let id: FileId = intent.file;
        let mut list = match self.versions.get(&id) {
            Some(versions) => copy_versions(versions),
            None => Vec::new(),
        };
        proof {
            assert(list@ =~= versions_of(self@, id));
        }
        list.push(version);
        self.versions.insert(id, list);
        let mut file = file;
        file.head = Head { version_id: Some(version.id), generation: version.generation };
        self.files.insert(id, file);
        let mut intent = intent;
        intent.state = IntentState::Published;
        intent.pinned = false;
        intent.owner_fence = None;
        self.put_intent(op, intent);
        self.tombstone(op);
        self.complete(op, Ok(OperationResult::Version(version)));
    }

    /// Publishes the version of a bound intent: its file's head moves to it. The actor
    /// must still be allowed to write, nothing about authorization may have changed, and
    /// the head must be the expected one; otherwise the intent is given up. One that has
    /// published answers the same again.
    pub fn publish(&mut self, op: OperationId, fence: u64) -> (r: Result<FileVersion, CatalogError>)
        ensures
            (r, final(self)@) == publish_outcome(old(self)@, op, fence),
    {
        let mut failure: Option<CatalogError> = None;
        if let Some(record) = self.operations.get(&op) {
            failure = record.error;
            if let Some(OperationResult::Version(version)) = record.result {
                return Ok(version);
            }
        }
        let intent = match self.find_intent(op) {
            Some(intent) => intent,
            None => {
                return Err(CatalogError::NotFound);
            },
        };
        if intent.state == IntentState::Aborted {
            return match failure {
                Some(error) => Err(error),
                None => Err(CatalogError::InvalidIntent),
            };
        }
        match self.require_fence(&intent, fence) {
            Err(error) => {
                return Err(error);
            },
            Ok(_) => {},
        }
        match intent.candidate {
            Some(candidate) => self.publish_bound(op, fence, intent, candidate),
            None => Err(CatalogError::InvalidIntent),
        }
    }

    /// A copy of an intent that is there.
    fn show(&self, op: OperationId) -> (r: Result<PublishIntent, CatalogError>)
        requires
            self@.intents.dom().contains(op),
        ensures
            shown(r) == Ok::<IntentView, CatalogError>(self@.intents[op]),
    {
        match self.find_intent(op) {
            Some(intent) => Ok(intent),
            None => Err(CatalogError::NotFound),
        }
    }

    /// Gives an intent up at the wish of an actor who may write its file.
    pub fn abort(&mut self, op: OperationId, actor: PrincipalId, fence: u64) -> (r: Result<
        PublishIntent,
        CatalogError,
    >)
        ensures
            (shown(r), final(self)@) == abort_outcome(old(self)@, op, actor, fence),
    {
        let file: FileId = match self.intents.get(&op) {
            Some(intent) => intent.file,
            None => {
                return Err(CatalogError::NotFound);
            },
        };
        match self.auth_file(actor, file) {
            Err(error) => {
                return Err(error);
            },
            Ok(_) => {},
        }
        match self.abort_inner(op, fence, "caller abort", None) {
            Err(error) => Err(error),
            Ok(_) => self.show(op),
        }
    }

    /// Gives an intent up in recovery.
    pub fn recovery_abort(&mut self, op: OperationId, fence: u64, reason: &str) -> (r: Result<
        PublishIntent,
        CatalogError,
    >)
        ensures
            (shown(r), final(self)@) == recovery_abort_outcome(old(self)@, op, fence, reason@),
    {
        match self.abort_inner(op, fence, reason, Some(CatalogError::InvalidIntent)) {
            Err(error) => Err(error),
            Ok(_) => self.show(op),
        }
    }

    /// Claims an open intent that nobody has claimed.
    pub fn claim_recovery_fence(&mut self, op: OperationId) -> (r: Result<u64, CatalogError>)
        ensures
            (r, final(self)@) == claim_outcome(old(self)@, op),
    {
        let mut intent = match self.find_intent(op) {
            Some(intent) => intent,
            None => {
                return Err(CatalogError::NotFound);
            },
        };
        if intent.state.terminal() {
            return Err(CatalogError::InvalidIntent);
        }
        if intent.owner_fence.is_some() {
            return Err(CatalogError::FenceLost);
        }
        let fence: u64 = self.coordinator_epoch;
        intent.owner_fence = Some(fence);
        self.put_intent(op, intent);
        Ok(fence)
    }

    /// Recovers an intent after a crash: one whose receipt is there is bound and
    /// published, or given up; one without stays open.
    pub fn recover(&mut self, op: OperationId) -> (r: Result<PublishIntent, CatalogError>)
        ensures
            (shown(r), final(self)@) == recover_outcome(old(self)@, op),
    {
        match self.find_intent(op) {
            Some(intent) => {
                if intent.state.terminal() {
                    return Ok(intent);
                }
            },
            None => {
                return Err(CatalogError::NotFound);
            },
        }
        let fence: u64 = match self.claim_recovery_fence(op) {
            Ok(fence) => fence,
            Err(error) => {
                return Err(error);
            },
        };
        if self.dag_index.contains_key(&op) {
            match self.bind_candidate(op, fence) {
                Err(error) => {
                    return Err(error);
                },
                Ok(_) => {},
            }
            match self.publish(op, fence) {
                Ok(_) => {},
                Err(_) => {},
            }
        }
        self.show(op)
    }

    /// Whether an open intent has a candidate with that commit.
    fn holds_candidate(&self, commit: &CommitId) -> (found: bool)
        ensures
            found == any_candidate(self@, *commit),
    {
        let n: usize = self.intents.len();
        let ghost items = self.intents.items();
        let mut i: usize = 0;
        while i < n
            invariant
                i <= n == items.len(),
                items == self.intents.items(),
                forall|j: int| 0 <= j < i ==> !(#[trigger] bound_to(items[j].1@, *commit)),
            decreases n - i,
        {
            let intent = self.intents.value_at(i);
            if !intent.state.terminal() {
                if let Some(candidate) = intent.candidate {
                    if same_id(&candidate.receipt.commit_id, commit) {
                        proof {
                            let op = items[i as int].0;
                            assert(self@.intents.dom().contains(op));
                        }
                        return true;
                    }
                }
            }
            assert(!bound_to(items[i as int].1@, *commit));
            i = i + 1;
        }
        proof {
            assert forall|op: OperationId| #[trigger]
                self@.intents.dom().contains(op) implies !bound_to(self@.intents[op], *commit) by {
                let j = position(items, op);
                assert(items[j].0 == op);
                assert(!bound_to(items[j].1@, *commit));
            }
        }
        false
    }

    /// Whether the commit of an operation can be reclaimed.
    pub fn candidate_reclaimable(&self, op: OperationId) -> (reclaim: bool)
        ensures
            reclaim == reclaimable(self@, op),
    {
        match self.dag_index.get(&op) {
            Some(entry) => {
                let commit = entry.receipt.commit_id;
                entry.state == IndexState::Tombstoned && !entry.has_roots && !self.holds_commit(
                    None,
                    &commit,
                ) && !self.holds_candidate(&commit) && !self.retention_roots.contains_key(&commit)
                    && !self.reader_pins.contains_key(&commit)
            },
            None => false,
        }
    }

    /// The catalog as it is after a crash: everything recorded is there, the
    /// coordinator has another epoch, and no intent is claimed.
    pub fn crash_reopen(&self) -> (r: Result<Self, CatalogError>)
        ensures
            if self@.coordinator_epoch == u64::MAX {
                r == Err::<Self, CatalogError>(CatalogError::EpochExhausted)
            } else {
                r is Ok && r->Ok_0@ == reopened(self@)
            },
    {
        let coordinator_epoch: u64 = match self.coordinator_epoch.checked_add(1) {
            Some(epoch) => epoch,
            None => {
                return Err(CatalogError::EpochExhausted);
            },
        };
        let copy = ModelCatalog {
            next_principal: self.next_principal,
            next_collection: self.next_collection,
            next_file: self.next_file,
            next_version: self.next_version,
            next_operation: self.next_operation,
            global_authz_epoch: self.global_authz_epoch,
            coordinator_epoch,
            principals: self.principals.copied(),
            collections: copy_collections(&self.collections),
            files: copy_files(&self.files),
            versions: copy_histories(&self.versions),
            intents: drop_claims(&self.intents),
            operations: self.operations.copied(),
            dag_index: self.dag_index.copied(),
            memberships: self.memberships.copied(),
            retention_roots: self.retention_roots.copied(),
            reader_pins: self.reader_pins.copied(),
        };
        proof {
            assert(copy@ =~= reopened(self@));
        }
        Ok(copy)
    }
}

/// Whether a version has the commit and, where a file is named, is of that file.
spec fn hit(version: FileVersion, file: Option<FileId>, commit: CommitId) -> bool {
    version.commit_id == commit && match file {
        Some(file) => version.file == file,
        None => true,
    }
}

/// Whether an open intent has a candidate with that commit.
spec fn bound_to(intent: IntentView, commit: CommitId) -> bool {
    !intent.state.ended() && intent.candidate is Some && intent.candidate->0.receipt.commit_id
        == commit
}

/// The intents with no claims on them.
pub open spec fn unclaimed(intents: Map<OperationId, IntentView>) -> Map<OperationId, IntentView> {
    Map::new(
        |op: OperationId| intents.dom().contains(op),
        |op: OperationId| IntentView { owner_fence: None, ..intents[op] },
    )
}

fn drop_claims(table: &Table<OperationId, PublishIntent>) -> (copy: Table<
    OperationId,
    PublishIntent,
>)
    ensures
        views(copy@) == unclaimed(views(table@)),
{
    let mut copy: Table<OperationId, PublishIntent> = Table::new();
    let n: usize = table.len();
    let ghost items = table.items();
    let mut i: usize = 0;
    proof {
        assert(as_map(items.take(0)) =~= Map::empty());
        assert(views(copy@) =~= unclaimed(views(as_map(items.take(0)))));
    }
    while i < n
        invariant
            i <= n == items.len(),
            items == table.items(),
            distinct_keys(items),
            views(copy@) == unclaimed(views(as_map(items.take(i as int)))),
        decreases n - i,
    {
        let id = *table.key_at(i);
        let mut value = table.value_at(i).clone();
        value.owner_fence = None;
        copy.insert(id, value);
        proof {
            lemma_grow(items, i as int);
            assert(views(copy@) =~= unclaimed(views(as_map(items.take(i + 1)))));
        }
        i = i + 1;
    }
    proof {
        assert(items.take(i as int) =~= items);
    }
    copy
}

/// The receipt of a commit that the graph holds with its snapshot.
fn read_receipt(dag: &Dag, op: OperationId, commit_id: CommitId) -> (r: Result<
    CommitReceipt,
    CatalogError,
>)
    ensures
        r == receipt_of(dag.graph(), op, commit_id),
{
    match dag.get(&commit_id) {
        Some(Node::Commit(commit)) => {
            let own_id = match Node::Commit(*commit).id() {
                Ok(id) => id,
                Err(_) => {
                    return Err(CatalogError::InvalidCommit);
                },
            };
            if !same_id(&own_id, &commit_id) {
                return Err(CatalogError::InvalidCommit);
            }
            match dag.get(&commit.snapshot) {
                Some(Node::Snapshot(snapshot)) => Ok(
                    CommitReceipt {
                        operation_id: op,
                        commit_id,
                        snapshot_id: commit.snapshot,
                        snapshot_size: snapshot.logical_size,
                        snapshot_digest: snapshot.content_digest,
                        parent: commit.parent,
                    },
                ),
                _ => Err(CatalogError::InvalidReceipt),
            }
        },
        _ => Err(CatalogError::InvalidCommit),
    }
}

} // verus!
