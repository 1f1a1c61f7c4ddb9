//! The record log of the durable graph: its bytes and how they are scanned.
use vstd::prelude::*;
use vstd::string::*;

use crate::bytes::{le_bytes, le_value, splice, zeros};
use crate::catalog::graph::id_of;
use crate::catalog::ids::{CommitId, NodeId};
use crate::catalog::node::{
    decode_problem, kind_numbered, law_payload_is_canonical, DagError, NodeKind, NodeView,
};
use crate::device::block::{between, DeviceError};
use crate::hashing::blake3_digest;

verus! {

/// The fixed header of a record: kind, payload length, checksum.
pub const RECORD_HEADER_LEN: usize = 38;

/// The footer of a record: magic, payload length, checksum.
pub const RECORD_FOOTER_LEN: usize = 48;

pub const BINDING_KIND: u16 = 0x100;

pub const TOMBSTONE_KIND: u16 = 0x101;

pub const MAX_RECORD_PAYLOAD: usize = 16_777_216;

/// The most bytes that one read of a snapshot hands out.
pub const MAX_SNAPSHOT_READ_BYTES: usize = 67_108_864;

/// What a record holds.
#[derive(Clone, Copy, Debug, PartialEq, Eq, Structural)]
pub enum RecordKind {
    Node(NodeKind),
    OperationBinding,
    OperationTombstone,
}

/// Why a request to the durable graph failed.
#[derive(Clone, Copy, Debug)]
pub enum FileDagStoreError {
    Device(DeviceError),
    Dag(DagError),
    MissingNode(NodeId),
    InvalidReference(NodeId),
    InvalidSnapshot(&'static str),
    RangeOutOfBounds { start: u64, end: u64, size: u64 },
    ResourceLimit(&'static str),
    CorruptRecord { offset: u64, reason: &'static str },
    RecordTooLarge(usize),
    CapacityExhausted { needed: u64, remaining: u64 },
    OperationConflict(u64),
}

impl From<DeviceError> for FileDagStoreError {
    fn from(error: DeviceError) -> (wrapped: Self) {
        FileDagStoreError::Device(error)
    }
}

impl vstd::std_specs::convert::FromSpecImpl<DeviceError> for FileDagStoreError {
    open spec fn obeys_from_spec() -> bool {
        true
    }

    open spec fn from_spec(error: DeviceError) -> Self {
        FileDagStoreError::Device(error)
    }
}

impl From<DagError> for FileDagStoreError {
    fn from(error: DagError) -> (wrapped: Self) {
        FileDagStoreError::Dag(error)
    }
}

impl vstd::std_specs::convert::FromSpecImpl<DagError> for FileDagStoreError {
    open spec fn obeys_from_spec() -> bool {
        true
    }

    open spec fn from_spec(error: DagError) -> Self {
        FileDagStoreError::Dag(error)
    }
}

impl RecordKind {
    /// The number that stands for the kind in a header.
    pub open spec fn number(self) -> u16 {
        match self {
            RecordKind::Node(kind) => kind.number(),
            RecordKind::OperationBinding => BINDING_KIND,
            RecordKind::OperationTombstone => TOMBSTONE_KIND,
        }
    }

    pub fn code(self) -> (code: u16)
        ensures
            code == self.number(),
    {
        match self {
            RecordKind::Node(kind) => kind.code(),
            RecordKind::OperationBinding => BINDING_KIND,
            RecordKind::OperationTombstone => TOMBSTONE_KIND,
        }
    }

    pub fn decode(code: u16) -> (r: Result<Self, FileDagStoreError>)
        ensures
            r == kind_result(code),
    {
        if code == BINDING_KIND {
            return Ok(RecordKind::OperationBinding);
        }
        if code == TOMBSTONE_KIND {
            return Ok(RecordKind::OperationTombstone);
        }
        match NodeKind::from_code(code) {
            Ok(kind) => Ok(RecordKind::Node(kind)),
            Err(error) => Err(FileDagStoreError::Dag(error)),
        }
    }
}

/// The record kind with the given number.
pub open spec fn kind_result(code: u16) -> Result<RecordKind, FileDagStoreError> {
    if code == BINDING_KIND {
        Ok(RecordKind::OperationBinding)
    } else if code == TOMBSTONE_KIND {
        Ok(RecordKind::OperationTombstone)
    } else {
        match kind_numbered(code as nat) {
            Some(kind) => Ok(RecordKind::Node(kind)),
            None => Err(FileDagStoreError::Dag(DagError::InvalidKind(code))),
        }
    }
}

/// The eight bytes that end a finished record.
pub open spec fn footer_magic() -> Seq<u8> {
    "CAIRNEND".spec_bytes()
}

/// The checksum of a record.
pub open spec fn record_checksum(code: u16, payload: Seq<u8>) -> Seq<u8> {
    blake3_digest(le_bytes(code as nat, 2) + le_bytes(payload.len(), 4) + payload)@
}

pub open spec fn record_header(code: u16, payload: Seq<u8>) -> Seq<u8> {
    le_bytes(code as nat, 2) + le_bytes(payload.len(), 4) + record_checksum(code, payload)
}

/// The footer behind its magic.
pub open spec fn footer_tail(code: u16, payload: Seq<u8>) -> Seq<u8> {
    le_bytes(payload.len(), 8) + record_checksum(code, payload)
}

/// A finished record.
pub open spec fn record_bytes(code: u16, payload: Seq<u8>) -> Seq<u8> {
    record_header(code, payload) + payload + footer_magic() + footer_tail(code, payload)
}

/// The log while a record is being appended: its header and payload are written.
pub open spec fn with_payload(contents: Seq<u8>, at: int, code: u16, payload: Seq<u8>) -> Seq<u8> {
    splice(splice(contents, at, record_header(code, payload)), at + 38, payload)
}

/// The log while a record is being appended: all but the footer's magic is written.
pub open spec fn with_tail(contents: Seq<u8>, at: int, code: u16, payload: Seq<u8>) -> Seq<u8> {
    splice(
        with_payload(contents, at, code, payload),
        at + 38 + payload.len(),
        zeros(8) + footer_tail(code, payload),
    )
}

/// The log with a finished record.
pub open spec fn with_record(contents: Seq<u8>, at: int, code: u16, payload: Seq<u8>) -> Seq<u8> {
    splice(contents, at, record_bytes(code, payload))
}

/// What may be left of a record whose append is cut short: part of its header and payload,
/// or these and part of its footer, or all but part of the footer's magic.
pub open spec fn record_cut(
    contents: Seq<u8>,
    at: int,
    code: u16,
    payload: Seq<u8>,
    left: Seq<u8>,
) -> bool {
    let second = with_payload(contents, at, code, payload);
    let third = with_tail(contents, at, code, payload);
    ||| between(left, contents, second)
    ||| between(left, second, third)
    ||| between(left, third, with_record(contents, at, code, payload))
}

/// How many bytes a record takes.
pub open spec fn record_span(payload_len: nat) -> nat {
    86 + payload_len
}

/// The kind number in the header at `at`.
pub open spec fn code_at(contents: Seq<u8>, at: int) -> u16 {
    le_value(contents.subrange(at, at + 2)) as u16
}

/// The payload length in the header at `at`.
pub open spec fn len_at(contents: Seq<u8>, at: int) -> nat {
    le_value(contents.subrange(at + 2, at + 6))
}

pub open spec fn payload_at(contents: Seq<u8>, at: int) -> Seq<u8> {
    contents.subrange(at + 38, at + 38 + len_at(contents, at))
}

/// Whether the record at `at` has its footer, or what is wrong with the footer.
pub open spec fn footer_result(contents: Seq<u8>, at: int) -> Result<bool, FileDagStoreError> {
    let code = code_at(contents, at);
    let payload = payload_at(contents, at);
    let foot = at + 38 + len_at(contents, at);
    if contents.subrange(foot, foot + 8) != footer_magic() {
        Ok(false)
    } else if contents.subrange(foot + 8, foot + 48) != footer_tail(code, payload) {
        Err(corrupt(at, "record footer mismatch"))
    } else {
        Ok(true)
    }
}

pub open spec fn corrupt(at: int, reason: &'static str) -> FileDagStoreError {
    FileDagStoreError::CorruptRecord { offset: at as u64, reason }
}

/// The node that a payload encodes.
pub open spec fn decoded(kind: NodeKind, payload: Seq<u8>) -> NodeView {
    choose|node: NodeView|
        node.kind() == kind && node.problem() is None && #[trigger] node.payload() == payload
}

pub proof fn lemma_decoded(kind: NodeKind, payload: Seq<u8>, node: NodeView)
    requires
        node.kind() == kind,
        node.problem() is None,
        node.payload() == payload,
    ensures
        decoded(kind, payload) == node,
{
    law_payload_is_canonical(decoded(kind, payload), node);
}

/// What reading the node record at `at` gives, with the index that found it.
pub open spec fn node_result(contents: Seq<u8>, index: Map<NodeId, u64>, at: u64) -> Result<
    NodeView,
    FileDagStoreError,
> {
    let code = code_at(contents, at as int);
    let len = len_at(contents, at as int);
    let payload = payload_at(contents, at as int);
    match kind_result(code) {
        Err(error) => Err(error),
        Ok(kind) => if len > MAX_RECORD_PAYLOAD {
            Err(corrupt(at as int, "payload too large"))
        } else if at + record_span(len) > contents.len() {
            Err(corrupt(at as int, "record truncated"))
        } else {
            match footer_result(contents, at as int) {
                Err(error) => Err(error),
                Ok(false) => Err(corrupt(at as int, "record footer missing")),
                Ok(true) => match kind {
                    RecordKind::Node(node_kind) => if contents.subrange(at + 6, at + 38)
                        != record_checksum(code, payload) {
                        Err(corrupt(at as int, "checksum mismatch"))
                    } else if decode_problem(node_kind, payload) is Some {
                        Err(FileDagStoreError::Dag(decode_problem(node_kind, payload)->0))
                    } else {
                        let node = decoded(node_kind, payload);
                        if index.dom().contains(id_of(node)) && index[id_of(node)] == at {
                            Ok(node)
                        } else {
                            Err(corrupt(at as int, "node id mismatch"))
                        }
                    },
                    _ => Err(corrupt(at as int, "index is not a node")),
                },
            }
        },
    }
}

/// What looking a node up gives.
pub open spec fn lookup(contents: Seq<u8>, index: Map<NodeId, u64>, id: NodeId) -> Result<
    NodeView,
    FileDagStoreError,
> {
    if index.dom().contains(id) {
        node_result(contents, index, index[id])
    } else {
        Err(FileDagStoreError::MissingNode(id))
    }
}

/// What is wrong with taking a node for a commit, if anything.
pub open spec fn commit_problem(
    contents: Seq<u8>,
    index: Map<NodeId, u64>,
    commit: CommitId,
) -> Option<FileDagStoreError> {
    if !index.dom().contains(commit) {
        Some(FileDagStoreError::Dag(DagError::MissingNode(commit)))
    } else {
        match node_result(contents, index, index[commit]) {
            Err(error) => Some(error),
            Ok(NodeView::Commit(node)) => if id_of(NodeView::Commit(node)) != commit {
                Some(FileDagStoreError::Dag(DagError::HashMismatch(commit)))
            } else {
                None
            },
            Ok(_) => Some(FileDagStoreError::Dag(DagError::InvalidReference(commit))),
        }
    }
}

/// What the log's index holds.
#[verifier::ext_equal]
pub struct LogView {
    /// Where the next record goes.
    pub next: u64,
    /// Where each node's record is.
    pub nodes: Map<NodeId, u64>,
    /// The commits of active operations.
    pub bindings: Map<u64, CommitId>,
    /// The commits of operations that have ended.
    pub tombstones: Map<u64, CommitId>,
}

/// The index of an empty log.
pub open spec fn empty_log() -> LogView {
    LogView {
        next: 0,
        nodes: Map::empty(),
        bindings: Map::empty(),
        tombstones: Map::empty(),
    }
}

/// What a binding or tombstone payload says: the operation and its commit.
pub open spec fn bound_operation(payload: Seq<u8>) -> u64 {
    le_value(payload.subrange(0, 8)) as u64
}

pub open spec fn bound_commit(payload: Seq<u8>) -> CommitId {
    choose|id: CommitId| id@ == payload.subrange(8, 40)
}

/// The payload of a binding or tombstone record.
pub open spec fn binding_payload(operation: u64, commit: CommitId) -> Seq<u8> {
    le_bytes(operation as nat, 8) + commit@
}

impl LogView {
    /// The index after a binding record.
    pub open spec fn bind(self, contents: Seq<u8>, operation: u64, commit: CommitId) -> Result<
        LogView,
        FileDagStoreError,
    > {
        match commit_problem(contents, self.nodes, commit) {
            Some(error) => Err(error),
            None => if self.tombstones.dom().contains(operation) || (
            self.bindings.dom().contains(operation) && self.bindings[operation] != commit) {
                Err(FileDagStoreError::OperationConflict(operation))
            } else {
                Ok(LogView { bindings: self.bindings.insert(operation, commit), ..self })
            },
        }
    }

    /// The index after a tombstone record.
    pub open spec fn tombstone(
        self,
        contents: Seq<u8>,
        operation: u64,
        commit: CommitId,
    ) -> Result<LogView, FileDagStoreError> {
        match commit_problem(contents, self.nodes, commit) {
            Some(error) => Err(error),
            None => if self.tombstones.dom().contains(operation) {
                if self.tombstones[operation] == commit {
                    Ok(self)
                } else {
                    Err(FileDagStoreError::OperationConflict(operation))
                }
            } else if self.bindings.dom().contains(operation) && self.bindings[operation]
                == commit {
                Ok(
                    LogView {
                        bindings: self.bindings.remove(operation),
                        tombstones: self.tombstones.insert(operation, commit),
                        ..self
                    },
                )
            } else {
                Err(FileDagStoreError::OperationConflict(operation))
            },
        }
    }

    /// The index after the record at `next` with the given kind and payload.
    pub open spec fn indexed(
        self,
        contents: Seq<u8>,
        kind: RecordKind,
        payload: Seq<u8>,
    ) -> Result<LogView, FileDagStoreError> {
        match kind {
            RecordKind::Node(node_kind) => match decode_problem(node_kind, payload) {
                Some(error) => Err(FileDagStoreError::Dag(error)),
                None => Ok(
                    LogView {
                        nodes: self.nodes.insert(id_of(decoded(node_kind, payload)), self.next),
                        ..self
                    },
                ),
            },
            RecordKind::OperationBinding => if payload.len() != 40 {
                Err(corrupt(self.next as int, "binding payload length"))
            } else {
                self.bind(contents, bound_operation(payload), bound_commit(payload))
            },
            RecordKind::OperationTombstone => if payload.len() != 40 {
                Err(corrupt(self.next as int, "tombstone payload length"))
            } else {
                self.tombstone(contents, bound_operation(payload), bound_commit(payload))
            },
        }
    }

    /// One step of a scan: `Ok(None)` where the log ends, else the index after the
    /// record at `next`.
    pub open spec fn scan_step(self, contents: Seq<u8>) -> Result<
        Option<LogView>,
        FileDagStoreError,
    > {
        let at = self.next as int;
        let len = len_at(contents, at);
        let code = code_at(contents, at);
        let payload = payload_at(contents, at);
        if at + 38 > contents.len() || contents.subrange(at, at + 38) == zeros(38) {
            Ok(None)
        } else if len == 0 {
            Err(corrupt(at, "zero-length record"))
        } else if len > MAX_RECORD_PAYLOAD {
            Err(corrupt(at, "payload too large"))
        } else if at + record_span(len) > contents.len() {
            Ok(None)
        } else {
            match footer_result(contents, at) {
                Err(error) => Err(error),
                Ok(false) => Ok(None),
                Ok(true) => match kind_result(code) {
                    Err(error) => Err(error),
                    Ok(kind) => if contents.subrange(at + 6, at + 38) != record_checksum(
                        code,
                        payload,
                    ) {
                        Err(corrupt(at, "checksum mismatch"))
                    } else {
                        match self.indexed(contents, kind, payload) {
                            Err(error) => Err(error),
                            Ok(after) => Ok(
                                Some(
                                    LogView {
                                        next: (self.next + record_span(len)) as u64,
                                        ..after
                                    },
                                ),
                            ),
                        }
                    },
                },
            }
        }
    }

    /// What scanning on from here gives.
    pub open spec fn scanned(self, contents: Seq<u8>) -> Result<LogView, FileDagStoreError>
        decreases contents.len() - self.next,
    {
        if contents.len() > u64::MAX {
            Ok(self)
        } else {
            match self.scan_step(contents) {
                Err(error) => Err(error),
                Ok(None) => Ok(self),
                Ok(Some(after)) => if after.next > self.next {
                    after.scanned(contents)
                } else {
                    Ok(self)
                },
            }
        }
    }

    /// Where records may be read: every node lies in bounds.
    pub open spec fn in_bounds(self, size: nat) -> bool {
        &&& self.next <= size
        &&& forall|id: NodeId| #[trigger]
            self.nodes.dom().contains(id) ==> self.nodes[id] + 38 <= size
    }
}

/// What a scan gives of a log with these contents.
pub open spec fn scan(contents: Seq<u8>) -> Result<LogView, FileDagStoreError> {
    empty_log().scanned(contents)
}

pub proof fn lemma_kind_code(kind: RecordKind)
    ensures
        kind_result(kind.number()) == Ok::<RecordKind, FileDagStoreError>(kind),
{
}

pub proof fn lemma_magic_len()
    ensures
        footer_magic().len() == 8,
        footer_magic()[0] == 67,
{
    reveal_strlit("CAIRNEND");
    assert(is_ascii("CAIRNEND"));
    vstd::string::is_ascii_spec_bytes("CAIRNEND");
    assert("CAIRNEND"@.len() == 8);
    assert("CAIRNEND"@[0] == 'C');
}

} // verus!
