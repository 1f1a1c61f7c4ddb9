//! What the single-coordinator catalog records.
use vstd::prelude::*;

use crate::catalog::ids::{CollectionId, CommitReceipt, FileId, OperationId, PrincipalId, VersionId};
use crate::catalog::types::{
    copy_text, text, Candidate, CatalogError, Head, IndexState, IntentState,
};

verus! {

/// A publication under way or ended. The claim on it is the epoch of the coordinator.
#[derive(Debug, PartialEq, Eq)]
pub struct PublishIntent {
    pub operation_id: OperationId,
    pub actor: PrincipalId,
    pub file: FileId,
    pub state: IntentState,
    pub authz_epoch: u64,
    pub global_authz_epoch: u64,
    pub expected_head: Head,
    pub base: Option<Head>,
    pub version_id: VersionId,
    pub candidate: Option<Candidate>,
    pub abort_reason: Option<String>,
    pub owner_fence: Option<u64>,
    pub pinned: bool,
}

#[verifier::ext_equal]
pub struct IntentView {
    pub operation_id: OperationId,
    pub actor: PrincipalId,
    pub file: FileId,
    pub state: IntentState,
    pub authz_epoch: u64,
    pub global_authz_epoch: u64,
    pub expected_head: Head,
    pub base: Option<Head>,
    pub version_id: VersionId,
    pub candidate: Option<Candidate>,
    pub abort_reason: Option<Seq<char>>,
    pub owner_fence: Option<u64>,
    pub pinned: bool,
}

impl View for PublishIntent {
    type V = IntentView;

    open spec fn view(&self) -> IntentView {
        IntentView {
            operation_id: self.operation_id,
            actor: self.actor,
            file: self.file,
            state: self.state,
            authz_epoch: self.authz_epoch,
            global_authz_epoch: self.global_authz_epoch,
            expected_head: self.expected_head,
            base: self.base,
            version_id: self.version_id,
            candidate: self.candidate,
            abort_reason: text(self.abort_reason),
            owner_fence: self.owner_fence,
            pinned: self.pinned,
        }
    }
}

impl Clone for PublishIntent {
    fn clone(&self) -> (copy: Self)
        ensures
            copy@ == self@,
    {
        PublishIntent {
            operation_id: self.operation_id,
            actor: self.actor,
            file: self.file,
            state: self.state,
            authz_epoch: self.authz_epoch,
            global_authz_epoch: self.global_authz_epoch,
            expected_head: self.expected_head,
            base: self.base,
            version_id: self.version_id,
            candidate: self.candidate,
            abort_reason: copy_text(&self.abort_reason),
            owner_fence: self.owner_fence,
            pinned: self.pinned,
        }
    }
}

/// A receipt that the graph handed over, and whether it still counts as a root.
#[derive(Clone, Copy, Debug, PartialEq, Eq)]
pub struct DagOperationIndexEntry {
    pub receipt: CommitReceipt,
    pub state: IndexState,
    pub has_roots: bool,
}

#[derive(Debug, PartialEq, Eq)]
pub enum Operation {
    Collection(CollectionId),
    File(FileId),
    Publish(PublishIntent),
    Error(CatalogError),
}

} // verus!
