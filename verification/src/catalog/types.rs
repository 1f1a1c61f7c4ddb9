//! What the catalog records.
use vstd::prelude::*;

use crate::catalog::ids::{
    CollectionId, CommitId, CommitReceipt, FileId, Generation, NodeId, OperationId, PrincipalId,
    VersionId,
};
use crate::table::Key;

verus! {

/// A coordinator's claim on one intent. The nonce tells claims of one coordinator
/// epoch apart; callers only have the tokens that were handed to them.
#[derive(Clone, Copy, Debug, PartialEq, Eq, Hash, Structural)]
pub struct FenceToken {
    pub(crate) coordinator_epoch: u64,
    pub(crate) nonce: u64,
}

impl FenceToken {
    /// The epoch of the coordinator that claimed.
    pub closed spec fn epoch(self) -> u64 {
        self.coordinator_epoch
    }

    pub closed spec fn number(self) -> u64 {
        self.nonce
    }

    /// The token with the given epoch and nonce.
    pub closed spec fn of(epoch: u64, nonce: u64) -> FenceToken {
        FenceToken { coordinator_epoch: epoch, nonce }
    }

    pub(crate) fn new(coordinator_epoch: u64, nonce: u64) -> (token: Self)
        ensures
            token == FenceToken::of(coordinator_epoch, nonce),
    {
        FenceToken { coordinator_epoch, nonce }
    }

    pub(crate) fn is_of(&self, epoch: u64) -> (same: bool)
        ensures
            same == (self.epoch() == epoch),
    {
        self.coordinator_epoch == epoch
    }
}

/// A token is known by its epoch and nonce.
pub broadcast proof fn lemma_token(epoch: u64, nonce: u64)
    ensures
        (#[trigger] FenceToken::of(epoch, nonce)).epoch() == epoch,
        FenceToken::of(epoch, nonce).number() == nonce,
{
}

#[derive(Clone, Copy, Debug, PartialEq, Eq, Structural)]
pub enum PrincipalKind {
    User,
    Organization,
}

#[derive(Clone, Copy, Debug, PartialEq, Eq, Structural)]
pub enum PrincipalState {
    Active,
    Disabled,
}

#[derive(Clone, Copy, Debug, PartialEq, Eq, Structural)]
pub struct Principal {
    pub id: PrincipalId,
    pub kind: PrincipalKind,
    pub state: PrincipalState,
    pub authz_epoch: u64,
}

#[derive(Clone, Copy, Debug, PartialEq, Eq, Hash, Structural)]
pub enum Capability {
    Read,
    Write,
    ManageMembers,
}

impl Capability {
    /// Whether holding the capability is enough where `required` is asked for.
    pub open spec fn covers(self, required: Capability) -> bool {
        self is ManageMembers || self == required
    }

    pub fn permits(self, required: Capability) -> (enough: bool)
        ensures
            enough == self.covers(required),
    {
        self == Capability::ManageMembers || self == required
    }
}

#[derive(Clone, Copy, Debug, PartialEq, Eq, Hash, Structural)]
pub struct Membership {
    pub organization: PrincipalId,
    pub member: PrincipalId,
    pub capability: Capability,
}

/// An organization and one of its members.
#[derive(Clone, Copy, Debug, PartialEq, Eq, Structural)]
pub struct MemberKey {
    pub organization: PrincipalId,
    pub member: PrincipalId,
}

impl Key for MemberKey {
    fn same(&self, other: &Self) -> (same: bool) {
        self.organization == other.organization && self.member == other.member
    }
}

#[derive(Debug, PartialEq, Eq)]
pub struct Collection {
    pub id: CollectionId,
    pub owner: PrincipalId,
    pub name: String,
}

#[verifier::ext_equal]
pub struct CollectionView {
    pub id: CollectionId,
    pub owner: PrincipalId,
    pub name: Seq<char>,
}

impl View for Collection {
    type V = CollectionView;

    open spec fn view(&self) -> CollectionView {
        CollectionView { id: self.id, owner: self.owner, name: self.name@ }
    }
}

impl Clone for Collection {
    fn clone(&self) -> (copy: Self)
        ensures
            copy@ == self@,
    {
        Collection { id: self.id, owner: self.owner, name: self.name.clone() }
    }
}

/// The published version of a file and how many were published.
#[derive(Clone, Copy, Debug, PartialEq, Eq, Structural)]
pub struct Head {
    pub version_id: Option<VersionId>,
    pub generation: Generation,
}

#[derive(Debug, PartialEq, Eq)]
pub struct File {
    pub id: FileId,
    pub collection: CollectionId,
    pub name: String,
    pub head: Head,
}

#[verifier::ext_equal]
pub struct FileView {
    pub id: FileId,
    pub collection: CollectionId,
    pub name: Seq<char>,
    pub head: Head,
}

impl View for File {
    type V = FileView;

    open spec fn view(&self) -> FileView {
        FileView {
            id: self.id,
            collection: self.collection,
            name: self.name@,
            head: self.head,
        }
    }
}

impl Clone for File {
    fn clone(&self) -> (copy: Self)
        ensures
            copy@ == self@,
    {
        File {
            id: self.id,
            collection: self.collection,
            name: self.name.clone(),
            head: self.head,
        }
    }
}

#[derive(Clone, Copy, Debug, PartialEq, Eq)]
pub struct FileVersion {
    pub id: VersionId,
    pub file: FileId,
    pub generation: Generation,
    pub commit_id: CommitId,
    pub parent_version_id: Option<VersionId>,
    pub size: u64,
    pub digest: NodeId,
}

#[derive(Clone, Copy, Debug, PartialEq, Eq, Structural)]
pub enum IntentState {
    Preparing,
    CommitDurable,
    Published,
    Aborted,
}

impl IntentState {
    /// Whether the intent has ended.
    pub open spec fn ended(self) -> bool {
        self is Published || self is Aborted
    }

    pub fn terminal(self) -> (ended: bool)
        ensures
            ended == self.ended(),
    {
        matches!(self, IntentState::Published | IntentState::Aborted)
    }
}

/// The version that an intent will publish, with the receipt of its contents.
#[derive(Clone, Copy, Debug, PartialEq, Eq)]
pub struct Candidate {
    pub version_id: VersionId,
    pub receipt: CommitReceipt,
}

/// A publication under way or ended.
#[derive(Debug, PartialEq, Eq)]
pub struct PublishIntent {
    pub operation_id: OperationId,
    pub actor: PrincipalId,
    pub file: FileId,
    pub state: IntentState,
    pub authz_epoch: u64,
    pub expected_head: Head,
    pub base: Option<Head>,
    pub version_id: VersionId,
    pub candidate: Option<Candidate>,
    pub abort_reason: Option<String>,
    pub owner_fence: Option<FenceToken>,
    pub pinned: bool,
}

#[verifier::ext_equal]
pub struct IntentView {
    pub operation_id: OperationId,
    pub actor: PrincipalId,
    pub file: FileId,
    pub state: IntentState,
    pub authz_epoch: u64,
    pub expected_head: Head,
    pub base: Option<Head>,
    pub version_id: VersionId,
    pub candidate: Option<Candidate>,
    pub abort_reason: Option<Seq<char>>,
    pub owner_fence: Option<FenceToken>,
    pub pinned: bool,
}

pub open spec fn text(words: Option<String>) -> Option<Seq<char>> {
    match words {
        Some(words) => Some(words@),
        None => None,
    }
}

impl View for PublishIntent {
    type V = IntentView;

    open spec fn view(&self) -> IntentView {
        IntentView {
            operation_id: self.operation_id,
            actor: self.actor,
            file: self.file,
            state: self.state,
            authz_epoch: self.authz_epoch,
            expected_head: self.expected_head,
            base: self.base,
            version_id: self.version_id,
            candidate: self.candidate,
            abort_reason: text(self.abort_reason),
            owner_fence: self.owner_fence,
            pinned: self.pinned,
        }
    }
}

pub(crate) fn copy_text(words: &Option<String>) -> (copy: Option<String>)
    ensures
        text(copy) == text(*words),
{
    match words {
        Some(words) => Some(words.clone()),
        None => None,
    }
}

impl Clone for PublishIntent {
    fn clone(&self) -> (copy: Self)
        ensures
            copy@ == self@,
    {
        PublishIntent {
            operation_id: self.operation_id,
            actor: self.actor,
            file: self.file,
            state: self.state,
            authz_epoch: self.authz_epoch,
            expected_head: self.expected_head,
            base: self.base,
            version_id: self.version_id,
            candidate: self.candidate,
            abort_reason: copy_text(&self.abort_reason),
            owner_fence: self.owner_fence,
            pinned: self.pinned,
        }
    }
}

impl PublishIntent {
    /// A new intent, claimed by the coordinator that holds the token.
    pub(crate) fn begin(
        operation_id: OperationId,
        actor: PrincipalId,
        file: FileId,
        authz_epoch: u64,
        expected_head: Head,
        version_id: VersionId,
        fence: FenceToken,
    ) -> (intent: Self)
        ensures
            intent@ == (IntentView {
                operation_id,
                actor,
                file,
                state: IntentState::Preparing,
                authz_epoch,
                expected_head,
                base: match expected_head.version_id {
                    Some(_) => Some(expected_head),
                    None => None,
                },
                version_id,
                candidate: None,
                abort_reason: None,
                owner_fence: Some(fence),
                pinned: true,
            }),
    {
        PublishIntent {
            operation_id,
            actor,
            file,
            state: IntentState::Preparing,
            authz_epoch,
            expected_head,
            base: match expected_head.version_id {
                Some(_) => Some(expected_head),
                None => None,
            },
            version_id,
            candidate: None,
            abort_reason: None,
            owner_fence: Some(fence),
            pinned: true,
        }
    }

    pub(crate) fn fence(&self) -> (fence: Option<FenceToken>)
        ensures
            fence == self@.owner_fence,
    {
        self.owner_fence
    }

    /// The intent with another claim on it.
    pub(crate) fn with_fence(self, fence: Option<FenceToken>) -> (intent: Self)
        ensures
            intent@ == (IntentView { owner_fence: fence, ..self@ }),
    {
        let mut intent = self;
        intent.owner_fence = fence;
        intent
    }

    /// The intent with its receipt bound.
    pub(crate) fn with_candidate(self, receipt: CommitReceipt) -> (intent: Self)
        ensures
            intent@ == (IntentView {
                candidate: Some(Candidate { version_id: self@.version_id, receipt }),
                state: IntentState::CommitDurable,
                ..self@
            }),
    {
        let mut intent = self;
        intent.candidate = Some(Candidate { version_id: intent.version_id, receipt });
        intent.state = IntentState::CommitDurable;
        intent
    }

    /// The intent after its version was published.
    pub(crate) fn into_published(self) -> (intent: Self)
        ensures
            intent@ == (IntentView {
                state: IntentState::Published,
                pinned: false,
                owner_fence: None,
                ..self@
            }),
    {
        let mut intent = self;
        intent.state = IntentState::Published;
        intent.pinned = false;
        intent.owner_fence = None;
        intent
    }

    /// The intent after it was given up.
    pub(crate) fn into_aborted(self, reason: String) -> (intent: Self)
        ensures
            intent@ == (IntentView {
                state: IntentState::Aborted,
                abort_reason: Some(reason@),
                owner_fence: None,
                pinned: false,
                ..self@
            }),
    {
        let mut intent = self;
        intent.state = IntentState::Aborted;
        intent.abort_reason = Some(reason);
        intent.owner_fence = None;
        intent.pinned = false;
        intent
    }
}

/// What an actor sees of an intent: everything but the coordinator's claim.
#[derive(Debug, PartialEq, Eq)]
pub struct PublicPublishIntent {
    pub operation_id: OperationId,
    pub actor: PrincipalId,
    pub file: FileId,
    pub state: IntentState,
    pub expected_head: Head,
    pub base: Option<Head>,
    pub version_id: VersionId,
    pub abort_reason: Option<String>,
    pub pinned: bool,
}

#[verifier::ext_equal]
pub struct PublicIntentView {
    pub operation_id: OperationId,
    pub actor: PrincipalId,
    pub file: FileId,
    pub state: IntentState,
    pub expected_head: Head,
    pub base: Option<Head>,
    pub version_id: VersionId,
    pub abort_reason: Option<Seq<char>>,
    pub pinned: bool,
}

impl View for PublicPublishIntent {
    type V = PublicIntentView;

    open spec fn view(&self) -> PublicIntentView {
        PublicIntentView {
            operation_id: self.operation_id,
            actor: self.actor,
            file: self.file,
            state: self.state,
            expected_head: self.expected_head,
            base: self.base,
            version_id: self.version_id,
            abort_reason: text(self.abort_reason),
            pinned: self.pinned,
        }
    }
}

impl IntentView {
    /// The actor-visible part.
    pub open spec fn public(self) -> PublicIntentView {
        PublicIntentView {
            operation_id: self.operation_id,
            actor: self.actor,
            file: self.file,
            state: self.state,
            expected_head: self.expected_head,
            base: self.base,
            version_id: self.version_id,
            abort_reason: self.abort_reason,
            pinned: self.pinned,
        }
    }
}

impl PublicPublishIntent {
    /// The actor-visible part of an intent.
    pub fn of(intent: &PublishIntent) -> (public: Self)
        ensures
            public@ == intent@.public(),
    {
        PublicPublishIntent {
            operation_id: intent.operation_id,
            actor: intent.actor,
            file: intent.file,
            state: intent.state,
            expected_head: intent.expected_head,
            base: intent.base,
            version_id: intent.version_id,
            abort_reason: copy_text(&intent.abort_reason),
            pinned: intent.pinned,
        }
    }
}

impl Clone for PublicPublishIntent {
    fn clone(&self) -> (copy: Self)
        ensures
            copy@ == self@,
    {
        PublicPublishIntent {
            operation_id: self.operation_id,
            actor: self.actor,
            file: self.file,
            state: self.state,
            expected_head: self.expected_head,
            base: self.base,
            version_id: self.version_id,
            abort_reason: copy_text(&self.abort_reason),
            pinned: self.pinned,
        }
    }
}

/// What the recovery coordinator holds after a reopen.
#[derive(Debug)]
pub struct RecoveryAuthority {
    granted: (),
}

impl Clone for RecoveryAuthority {
    fn clone(&self) -> Self {
        RecoveryAuthority { granted: () }
    }
}

impl RecoveryAuthority {
    pub(crate) fn grant() -> Self {
        RecoveryAuthority { granted: () }
    }
}

/// The authority over principals. It is no identity in the catalog and does not
/// outlive the process.
#[derive(Debug)]
pub struct SystemAuthority {
    granted: (),
}

impl Clone for SystemAuthority {
    fn clone(&self) -> Self {
        SystemAuthority { granted: () }
    }
}

impl SystemAuthority {
    pub(crate) fn grant() -> Self {
        SystemAuthority { granted: () }
    }
}

#[derive(Clone, Copy, Debug, PartialEq, Eq, Structural)]
pub enum OperationKind {
    CreateCollection,
    CreateFile,
    Publish,
}

#[derive(Clone, Copy, Debug, PartialEq, Eq)]
pub enum OperationResult {
    Collection(CollectionId),
    File(FileId),
    Version(FileVersion),
    Aborted,
}

/// What is durably known of a request: who asked for what, and how it ended.
#[derive(Clone, Copy, Debug, PartialEq, Eq)]
pub struct OperationRecord {
    pub operation_id: OperationId,
    pub actor: PrincipalId,
    pub kind: OperationKind,
    pub request_fingerprint: [u8; 32],
    pub result: Option<OperationResult>,
    pub error: Option<CatalogError>,
}

#[derive(Clone, Copy, Debug, PartialEq, Eq, Structural)]
pub enum IndexState {
    Active,
    Tombstoned,
}

#[derive(Clone, Copy, Debug, PartialEq, Eq, Structural)]
pub enum DagBindingState {
    /// The graph has committed the receipt; the catalog has not attached it yet.
    ReceiptCommitted,
    /// The catalog has attached the receipt to the intent.
    Bound,
}

#[derive(Clone, Copy, Debug, PartialEq, Eq)]
pub struct CatalogHandoff {
    pub receipt: CommitReceipt,
    pub state: IndexState,
    pub has_roots: bool,
    pub binding: DagBindingState,
}

#[derive(Clone, Copy, Debug, PartialEq, Eq, Structural)]
pub enum CatalogError {
    NotFound,
    Aborted,
    PermissionDenied,
    PrincipalDisabled,
    NameTaken,
    InvalidName,
    OperationConflict,
    IdExhausted,
    EpochExhausted,
    GenerationExhausted,
    HeadConflict,
    InvalidIntent,
    AuthzEpochChanged,
    CandidateMismatch,
    ReceiptNotDurable,
    DuplicateCommit,
    InvalidCommit,
    InvalidReceipt,
    FenceLost,
    InvalidOrganization,
    RecoveryAuthorityRequired,
}

#[derive(Debug, PartialEq, Eq)]
pub enum Operation {
    Collection(CollectionId),
    File(FileId),
    Publish(PublishIntent),
    Error(CatalogError),
}

} // verus!
