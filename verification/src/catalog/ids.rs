//! Identifiers and durable receipts.
use vstd::prelude::*;

use crate::bytes::same_id;
use crate::table::Key;

verus! {

#[derive(Clone, Copy, Debug, PartialEq, Eq, Hash, PartialOrd, Ord, Structural)]
pub struct PrincipalId(pub u64);

impl PrincipalId {
    pub fn from_raw(value: u64) -> (id: Self)
        ensures
            id == PrincipalId(value),
    {
        PrincipalId(value)
    }

    pub fn get(self) -> (value: u64)
        ensures
            value == self.0,
    {
        self.0
    }
}

impl Key for PrincipalId {
    fn same(&self, other: &Self) -> (same: bool) {
        self.0 == other.0
    }
}

#[derive(Clone, Copy, Debug, PartialEq, Eq, Hash, PartialOrd, Ord, Structural)]
pub struct CollectionId(pub u64);

impl CollectionId {
    pub fn from_raw(value: u64) -> (id: Self)
        ensures
            id == CollectionId(value),
    {
        CollectionId(value)
    }

    pub fn get(self) -> (value: u64)
        ensures
            value == self.0,
    {
        self.0
    }
}

impl Key for CollectionId {
    fn same(&self, other: &Self) -> (same: bool) {
        self.0 == other.0
    }
}

#[derive(Clone, Copy, Debug, PartialEq, Eq, Hash, PartialOrd, Ord, Structural)]
pub struct FileId(pub u64);

impl FileId {
    pub fn from_raw(value: u64) -> (id: Self)
        ensures
            id == FileId(value),
    {
        FileId(value)
    }

    pub fn get(self) -> (value: u64)
        ensures
            value == self.0,
    {
        self.0
    }
}

impl Key for FileId {
    fn same(&self, other: &Self) -> (same: bool) {
        self.0 == other.0
    }
}

#[derive(Clone, Copy, Debug, PartialEq, Eq, Hash, PartialOrd, Ord, Structural)]
pub struct VersionId(pub u64);

impl VersionId {
    pub fn from_raw(value: u64) -> (id: Self)
        ensures
            id == VersionId(value),
    {
        VersionId(value)
    }

    pub fn get(self) -> (value: u64)
        ensures
            value == self.0,
    {
        self.0
    }
}

#[derive(Clone, Copy, Debug, PartialEq, Eq, Hash, PartialOrd, Ord, Structural)]
pub struct OperationId(pub u64);

impl OperationId {
    pub fn from_raw(value: u64) -> (id: Self)
        ensures
            id == OperationId(value),
    {
        OperationId(value)
    }

    pub fn get(self) -> (value: u64)
        ensures
            value == self.0,
    {
        self.0
    }
}

impl Key for OperationId {
    fn same(&self, other: &Self) -> (same: bool) {
        self.0 == other.0
    }
}

pub type Generation = u64;

/// The identifier of a node: the digest of its kind and canonical payload.
pub type NodeId = [u8; 32];

/// The identifier of a commit node.
pub type CommitId = NodeId;

/// What the graph made durable for an operation.
#[derive(Clone, Copy, Debug, PartialEq, Eq)]
pub struct CommitReceipt {
    pub operation_id: OperationId,
    pub commit_id: CommitId,
    pub snapshot_id: NodeId,
    pub snapshot_size: u64,
    pub snapshot_digest: NodeId,
    pub parent: Option<CommitId>,
}

/// Whether two optional identifiers are equal.
pub fn same_optional_id(a: &Option<NodeId>, b: &Option<NodeId>) -> (same: bool)
    ensures
        same == (*a == *b),
{
    match (a, b) {
        (Some(x), Some(y)) => same_id(x, y),
        (None, None) => true,
        _ => false,
    }
}

impl CommitReceipt {
    /// Whether two receipts are equal.
    pub fn same(&self, other: &CommitReceipt) -> (same: bool)
        ensures
            same == (*self == *other),
    {
        self.operation_id == other.operation_id && same_id(&self.commit_id, &other.commit_id)
            && same_id(&self.snapshot_id, &other.snapshot_id) && self.snapshot_size
            == other.snapshot_size && same_id(&self.snapshot_digest, &other.snapshot_digest)
            && same_optional_id(&self.parent, &other.parent)
    }

    pub fn operation_id(&self) -> (id: OperationId)
        ensures
            id == self.operation_id,
    {
        self.operation_id
    }

    pub fn commit_id(&self) -> (id: CommitId)
        ensures
            id == self.commit_id,
    {
        self.commit_id
    }

    pub fn snapshot_id(&self) -> (id: NodeId)
        ensures
            id == self.snapshot_id,
    {
        self.snapshot_id
    }

    pub fn snapshot_size(&self) -> (size: u64)
        ensures
            size == self.snapshot_size,
    {
        self.snapshot_size
    }

    pub fn snapshot_digest(&self) -> (digest: NodeId)
        ensures
            digest == self.snapshot_digest,
    {
        self.snapshot_digest
    }

    pub fn parent(&self) -> (parent: Option<CommitId>)
        ensures
            parent == self.parent,
    {
        self.parent
    }
}

/// A receipt that the graph itself handed out.
///
/// It is no evidence of a transaction across the graph and the catalog: it only
/// lets the catalog take in a receipt that the graph has verified as durable.
#[derive(Clone, Copy, Debug, PartialEq, Eq)]
pub struct DurableDagReceipt {
    pub(crate) receipt: CommitReceipt,
}

impl DurableDagReceipt {
    /// The receipt inside.
    pub closed spec fn inner(self) -> CommitReceipt {
        self.receipt
    }

    pub(crate) fn new(receipt: CommitReceipt) -> (durable: Self)
        ensures
            durable.inner() == receipt,
    {
        DurableDagReceipt { receipt }
    }

    pub fn receipt(&self) -> (receipt: CommitReceipt)
        ensures
            receipt == self.inner(),
    {
        self.receipt
    }
}


/// The catalog's word that an operation has ended, which lets the graph release
/// the operation's binding. Only the catalog hands it out, after it has recorded
/// the end durably.
pub struct CatalogTerminalPermit {
    pub(crate) receipt: CommitReceipt,
}

impl CatalogTerminalPermit {
    /// The receipt that the permit is about.
    pub closed spec fn inner(self) -> CommitReceipt {
        self.receipt
    }

    pub(crate) fn new(receipt: CommitReceipt) -> (permit: Self)
        ensures
            permit.inner() == receipt,
    {
        CatalogTerminalPermit { receipt }
    }

    pub fn matches(&self, receipt: &CommitReceipt) -> (same: bool)
        ensures
            same == (self.inner() == *receipt),
    {
        self.receipt.same(receipt)
    }
}

} // verus!
