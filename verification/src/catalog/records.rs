//! The rows of the durable catalog.
use vstd::prelude::*;

verus! {

pub const DAG_DURABILITY_SEAM: &'static str =
    "SQLite catalog and DAG media are separate durable stores; their handoff is not atomic";

/// Where the recording of a batch is cut short.
#[derive(Clone, Copy, Debug, PartialEq, Eq, Structural)]
pub enum CrashPoint {
    Never,
    AfterCollections,
    AfterFiles,
    AfterVersions,
    AfterIntents,
    AfterResults,
}

#[derive(Debug, PartialEq, Eq)]
pub struct PrincipalRecord {
    pub id: u64,
    pub kind: String,
    pub state: String,
    pub authz_epoch: u64,
}

impl Clone for PrincipalRecord {
    fn clone(&self) -> (copy: Self)
        ensures
            copy.id == self.id,
            copy.kind@ == self.kind@,
            copy.state@ == self.state@,
            copy.authz_epoch == self.authz_epoch,
    {
        PrincipalRecord {
            id: self.id,
            kind: self.kind.clone(),
            state: self.state.clone(),
            authz_epoch: self.authz_epoch,
        }
    }
}

#[derive(Debug, PartialEq, Eq)]
pub struct MembershipRecord {
    pub organization_id: u64,
    pub member_id: u64,
    pub capability: String,
}

impl Clone for MembershipRecord {
    fn clone(&self) -> (copy: Self)
        ensures
            copy.organization_id == self.organization_id,
            copy.member_id == self.member_id,
            copy.capability@ == self.capability@,
    {
        MembershipRecord {
            organization_id: self.organization_id,
            member_id: self.member_id,
            capability: self.capability.clone(),
        }
    }
}

#[derive(Debug, PartialEq, Eq)]
pub struct CollectionRecord {
    pub id: u64,
    pub owner_id: u64,
    pub name: String,
}

impl Clone for CollectionRecord {
    fn clone(&self) -> (copy: Self)
        ensures
            copy.id == self.id,
            copy.owner_id == self.owner_id,
            copy.name@ == self.name@,
    {
        CollectionRecord {
            id: self.id,
            owner_id: self.owner_id,
            name: self.name.clone(),
        }
    }
}

#[derive(Debug, PartialEq, Eq)]
pub struct FileRecord {
    pub id: u64,
    pub collection_id: u64,
    pub name: String,
}

impl Clone for FileRecord {
    fn clone(&self) -> (copy: Self)
        ensures
            copy.id == self.id,
            copy.collection_id == self.collection_id,
            copy.name@ == self.name@,
    {
        FileRecord {
            id: self.id,
            collection_id: self.collection_id,
            name: self.name.clone(),
        }
    }
}

#[derive(Debug, PartialEq, Eq)]
pub struct CollectionInfo {
    pub id: u64,
    pub owner_id: u64,
    pub name: String,
}

impl Clone for CollectionInfo {
    fn clone(&self) -> (copy: Self)
        ensures
            copy.id == self.id,
            copy.owner_id == self.owner_id,
            copy.name@ == self.name@,
    {
        CollectionInfo {
            id: self.id,
            owner_id: self.owner_id,
            name: self.name.clone(),
        }
    }
}

#[derive(Debug, PartialEq, Eq)]
pub struct FileInfo {
    pub id: u64,
    pub collection_id: u64,
    pub name: String,
}

impl Clone for FileInfo {
    fn clone(&self) -> (copy: Self)
        ensures
            copy.id == self.id,
            copy.collection_id == self.collection_id,
            copy.name@ == self.name@,
    {
        FileInfo {
            id: self.id,
            collection_id: self.collection_id,
            name: self.name.clone(),
        }
    }
}

#[derive(Clone, Copy, Debug, PartialEq, Eq)]
pub struct VersionRecord {
    pub id: u64,
    pub file_id: u64,
    pub generation: u64,
    pub commit_id: [u8; 32],
    pub parent_version_id: Option<u64>,
    pub size: u64,
    pub digest: [u8; 32],
}

/// What the catalog knows of a version. It holds nothing of the graph, so that media
/// are checked by whoever has them.
#[derive(Clone, Copy, Debug, PartialEq, Eq)]
pub struct CatalogVersion {
    pub id: u64,
    pub file_id: u64,
    pub generation: u64,
    pub commit_id: [u8; 32],
    pub parent_version_id: Option<u64>,
    pub size: u64,
    pub digest: [u8; 32],
}

#[derive(Clone, Copy, Debug, PartialEq, Eq, Structural)]
pub enum CatalogOperationState {
    InProgress,
    Succeeded,
    Failed,
}

#[derive(Clone, Copy, Debug, PartialEq, Eq, Structural)]
pub enum ReadAuthorization {
    Missing,
    Unauthorized,
    NotPublished,
    Authorized,
}

#[derive(Clone, Copy, Debug, PartialEq, Eq, Structural)]
pub struct HeadRecord {
    pub file_id: u64,
    pub version_id: Option<u64>,
    pub generation: u64,
}

#[derive(Debug, PartialEq, Eq)]
pub struct IntentRecord {
    pub operation_id: u64,
    pub actor_id: u64,
    pub file_id: u64,
    pub owner_epoch: u64,
    pub owner_nonce: u64,
    pub expected_head_version_id: Option<u64>,
    pub expected_head_generation: u64,
    pub candidate_version_id: Option<u64>,
    pub state: String,
    pub abort_reason: Option<String>,
    pub pinned: bool,
    pub request_fingerprint: [u8; 32],
    pub authz_epoch: u64,
}

/// An intent's row as mathematical values.
#[verifier::ext_equal]
pub struct IntentRow {
    pub operation_id: u64,
    pub actor_id: u64,
    pub file_id: u64,
    pub owner_epoch: u64,
    pub owner_nonce: u64,
    pub expected_head_version_id: Option<u64>,
    pub expected_head_generation: u64,
    pub candidate_version_id: Option<u64>,
    pub state: Seq<char>,
    pub abort_reason: Option<Seq<char>>,
    pub pinned: bool,
    pub request_fingerprint: [u8; 32],
    pub authz_epoch: u64,
}

pub open spec fn words(text: Option<String>) -> Option<Seq<char>> {
    match text {
        Some(text) => Some(text@),
        None => None,
    }
}

impl View for IntentRecord {
    type V = IntentRow;

    open spec fn view(&self) -> IntentRow {
        IntentRow {
            operation_id: self.operation_id,
            actor_id: self.actor_id,
            file_id: self.file_id,
            owner_epoch: self.owner_epoch,
            owner_nonce: self.owner_nonce,
            expected_head_version_id: self.expected_head_version_id,
            expected_head_generation: self.expected_head_generation,
            candidate_version_id: self.candidate_version_id,
            state: self.state@,
            abort_reason: words(self.abort_reason),
            pinned: self.pinned,
            request_fingerprint: self.request_fingerprint,
            authz_epoch: self.authz_epoch,
        }
    }
}

impl Clone for IntentRecord {
    fn clone(&self) -> (copy: Self)
        ensures
            copy@ == self@,
    {
        IntentRecord {
            operation_id: self.operation_id,
            actor_id: self.actor_id,
            file_id: self.file_id,
            owner_epoch: self.owner_epoch,
            owner_nonce: self.owner_nonce,
            expected_head_version_id: self.expected_head_version_id,
            expected_head_generation: self.expected_head_generation,
            candidate_version_id: self.candidate_version_id,
            state: self.state.clone(),
            abort_reason: match &self.abort_reason {
                Some(reason) => Some(reason.clone()),
                None => None,
            },
            pinned: self.pinned,
            request_fingerprint: self.request_fingerprint,
            authz_epoch: self.authz_epoch,
        }
    }
}

#[derive(Debug, PartialEq, Eq)]
pub struct OperationRecord {
    pub operation_id: u64,
    pub actor_id: u64,
    pub kind: String,
    pub request_fingerprint: [u8; 32],
    pub state: String,
    pub result: Option<String>,
    pub error: Option<String>,
}

/// An operation's row as mathematical values.
#[verifier::ext_equal]
pub struct OperationRow {
    pub operation_id: u64,
    pub actor_id: u64,
    pub kind: Seq<char>,
    pub request_fingerprint: [u8; 32],
    pub state: Seq<char>,
    pub result: Option<Seq<char>>,
    pub error: Option<Seq<char>>,
}

impl View for OperationRecord {
    type V = OperationRow;

    open spec fn view(&self) -> OperationRow {
        OperationRow {
            operation_id: self.operation_id,
            actor_id: self.actor_id,
            kind: self.kind@,
            request_fingerprint: self.request_fingerprint,
            state: self.state@,
            result: words(self.result),
            error: words(self.error),
        }
    }
}

impl Clone for OperationRecord {
    fn clone(&self) -> (copy: Self)
        ensures
            copy@ == self@,
    {
        OperationRecord {
            operation_id: self.operation_id,
            actor_id: self.actor_id,
            kind: self.kind.clone(),
            request_fingerprint: self.request_fingerprint,
            state: self.state.clone(),
            result: match &self.result {
                Some(result) => Some(result.clone()),
                None => None,
            },
            error: match &self.error {
                Some(error) => Some(error.clone()),
                None => None,
            },
        }
    }
}

/// The epoch of a coordinator. A later coordinator has a larger one.
#[derive(Clone, Copy, Debug, PartialEq, Eq, PartialOrd, Ord, Structural)]
pub struct CoordinatorEpoch(pub u64);

impl CoordinatorEpoch {
    /// The epoch before the first coordinator.
    pub fn zero() -> (epoch: Self)
        ensures
            epoch == CoordinatorEpoch(0),
    {
        CoordinatorEpoch(0)
    }

    pub fn new(value: u64) -> (epoch: Self)
        ensures
            epoch == CoordinatorEpoch(value),
    {
        CoordinatorEpoch(value)
    }

    pub fn get(self) -> (value: u64)
        ensures
            value == self.0,
    {
        self.0
    }
}

#[derive(Debug, PartialEq, Eq)]
pub enum RecoveryIntent {
    Nonterminal(IntentRecord),
    PublishedTombstone(IntentRecord),
    AbortedTombstone(IntentRecord),
}

#[derive(Debug, PartialEq, Eq)]
pub enum RecoveryWork {
    Resume(IntentRecord),
    TombstoneDagBinding { intent: IntentRecord, terminal: TombstoneTerminal },
}

#[derive(Clone, Copy, Debug, PartialEq, Eq, Structural)]
pub enum TombstoneTerminal {
    Published,
    Aborted,
}

#[derive(Clone, Copy, Debug, PartialEq, Eq, Structural)]
pub enum EpochClaim {
    Claimed(CoordinatorEpoch),
    Stale { current: CoordinatorEpoch },
}

#[allow(inconsistent_fields)]
#[derive(Debug, PartialEq, Eq)]
pub enum ClaimIntentOutcome {
    Claimed(RecoveryIntent),
    Missing,
    Fenced { current: CoordinatorEpoch },
    AlreadyClaimed { owner_epoch: CoordinatorEpoch, owner_nonce: u64 },
    FutureOwner { owner_epoch: CoordinatorEpoch, current: CoordinatorEpoch },
    Terminal(RecoveryIntent),
}

#[derive(Clone, Copy, Debug, PartialEq, Eq, Structural)]
pub enum T2Outcome {
    Applied,
    MissingIntent,
    Fenced,
    NotPreparing,
}

#[derive(Clone, Copy, Debug, PartialEq, Eq, Structural)]
pub enum T3Outcome {
    Published,
    AlreadyPublished,
    MissingIntent,
    MissingOperation,
    Fenced,
    NotCommitDurable,
    AuthorizationDenied,
    MissingCandidate,
    VersionConflict,
    HeadConflict,
}

#[derive(Debug, PartialEq, Eq)]
pub struct CatalogBatch {
    pub principals: Vec<PrincipalRecord>,
    pub memberships: Vec<MembershipRecord>,
    pub collections: Vec<CollectionRecord>,
    pub files: Vec<FileRecord>,
    pub heads: Vec<HeadRecord>,
    pub versions: Vec<VersionRecord>,
    pub intents: Vec<IntentRecord>,
    pub operations: Vec<OperationRecord>,
}

impl Default for CatalogBatch {
    fn default() -> (batch: Self)
        ensures
            batch.principals@.len() == 0,
            batch.memberships@.len() == 0,
            batch.collections@.len() == 0,
            batch.files@.len() == 0,
            batch.heads@.len() == 0,
            batch.versions@.len() == 0,
            batch.intents@.len() == 0,
            batch.operations@.len() == 0,
    {
        CatalogBatch {
            principals: Vec::new(),
            memberships: Vec::new(),
            collections: Vec::new(),
            files: Vec::new(),
            heads: Vec::new(),
            versions: Vec::new(),
            intents: Vec::new(),
            operations: Vec::new(),
        }
    }
}

#[derive(Clone, Copy, Debug, PartialEq, Eq, Structural)]
pub struct CatalogCounts {
    pub principals: u64,
    pub memberships: u64,
    pub collections: u64,
    pub files: u64,
    pub heads: u64,
    pub versions: u64,
    pub intents: u64,
    pub operations: u64,
}

#[derive(Clone, Copy, Debug, PartialEq, Eq, Structural)]
pub struct CatalogDurabilityMetrics {
    pub committed_transactions: u64,
}

/// How far a checkpoint of the write-ahead log goes.
#[derive(Clone, Copy, Debug, PartialEq, Eq, Structural)]
pub enum WalCheckpointMode {
    Passive,
    Full,
    Restart,
    Truncate,
}

impl WalCheckpointMode {
    /// The mode's word.
    pub open spec fn word(self) -> Seq<char> {
        match self {
            WalCheckpointMode::Passive => "PASSIVE"@,
            WalCheckpointMode::Full => "FULL"@,
            WalCheckpointMode::Restart => "RESTART"@,
            WalCheckpointMode::Truncate => "TRUNCATE"@,
        }
    }

    pub fn as_sql(self) -> (word: &'static str)
        ensures
            word@ == self.word(),
    {
        match self {
            WalCheckpointMode::Passive => "PASSIVE",
            WalCheckpointMode::Full => "FULL",
            WalCheckpointMode::Restart => "RESTART",
            WalCheckpointMode::Truncate => "TRUNCATE",
        }
    }
}

} // verus!
