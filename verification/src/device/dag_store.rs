//! The durable graph: an append-only record log over a block device.
use vstd::prelude::*;
use vstd::string::*;

use crate::bytes::{
    copy_range, id_at, le_bytes, lemma_id_view, lemma_le_bytes_len, lemma_pow256_values, push_all,
    push_le, read_le, same_bytes, same_id, splice, zero_bytes, zeros,
};
use crate::catalog::graph::{id_of, lemma_id_of};
use crate::catalog::ids::{CommitId, NodeId, OperationId};
use crate::catalog::node::{decode_node, encode_node_payload, same_node, DagError, Node, NodeView};
use crate::device::block::{
    carried, in_bounds, lemma_between_again, lemma_between_two_writes, saved, untouched, BlockDevice,
};
use crate::device::log::{
    binding_payload, bound_commit, commit_problem, empty_log, footer_magic, footer_tail,
    lemma_decoded, lemma_magic_len, lookup, node_result, payload_at, record_bytes, record_checksum,
    record_cut, record_header, record_span, scan, with_payload, with_record, with_tail,
    FileDagStoreError, LogView, RecordKind, MAX_RECORD_PAYLOAD,
    RECORD_FOOTER_LEN, RECORD_HEADER_LEN,
};
use crate::device::log_laws::{
    filed, law_append_keeps_nodes, law_appended_node_is_found, law_appended_record_is_scanned, law_interrupted_append_is_all_or_nothing,
    lemma_appended_filed, lemma_binding_payload, lemma_cut_front, lemma_node_indexed, same_front,
    settled,
};
use crate::hashing::{absorbed, hasher_finish, hasher_new, hasher_update};
use crate::table::Table;

verus! {

/// A graph whose nodes and operation bindings are records of a log.
///
/// A scan stops at an all-zero header or at a record whose footer was not finished.
/// A finished record with a wrong kind, length, checksum or encoding is refused.
pub struct FileDagStore<D> {
    device: D,
    next_offset: u64,
    nodes: Table<NodeId, u64>,
    bindings: Table<u64, CommitId>,
    tombstones: Table<u64, CommitId>,
    validated_snapshots: Table<NodeId, bool>,
}

impl<D> View for FileDagStore<D> {
    type V = LogView;

    closed spec fn view(&self) -> LogView {
        LogView {
            next: self.next_offset,
            nodes: self.nodes@,
            bindings: self.bindings@,
            tombstones: self.tombstones@,
        }
    }
}

impl<D> FileDagStore<D> {
    /// The device underneath.
    pub closed spec fn inner(&self) -> D {
        self.device
    }

    /// The snapshots whose digest was found right.
    pub closed spec fn validated(&self) -> Set<NodeId> {
        self.validated_snapshots@.dom()
    }
}

/// The checksum of a record.
fn checksum(kind: u16, payload: &[u8]) -> (sum: [u8; 32])
    ensures
        sum@ == record_checksum(kind, payload@),
{
    let mut prefix: Vec<u8> = Vec::new();
    push_le(&mut prefix, kind as u64, 2);
    push_le(&mut prefix, payload.len() as u64, 4);
    let mut hasher = hasher_new();
    hasher_update(&mut hasher, prefix.as_slice());
    hasher_update(&mut hasher, payload);
    proof {
        assert(absorbed(hasher) =~= le_bytes(kind as nat, 2) + le_bytes(payload@.len(), 4)
            + payload@);
    }
    hasher_finish(&hasher)
}

/// The header of a record.
pub fn encode_header(kind: RecordKind, payload: &[u8]) -> (header: Vec<u8>)
    ensures
        header@ == record_header(kind.number(), payload@),
        header@.len() == 38,
{
    let mut header: Vec<u8> = Vec::new();
    push_le(&mut header, kind.code() as u64, 2);
    push_le(&mut header, payload.len() as u64, 4);
    let sum = checksum(kind.code(), payload);
    push_all(&mut header, sum.as_slice());
    proof {
        lemma_le_bytes_len(kind.number() as nat, 2);
        lemma_le_bytes_len(payload@.len(), 4);
        assert(header@ =~= record_header(kind.number(), payload@));
    }
    header
}

/// The footer of a record before its magic is put in place.
fn encode_footer(kind: RecordKind, payload: &[u8]) -> (footer: Vec<u8>)
    ensures
        footer@ == zeros(8) + footer_tail(kind.number(), payload@),
        footer@.len() == 48,
{
    let mut footer: Vec<u8> = zero_bytes(8);
    push_le(&mut footer, payload.len() as u64, 8);
    let sum = checksum(kind.code(), payload);
    push_all(&mut footer, sum.as_slice());
    proof {
        lemma_le_bytes_len(payload@.len(), 8);
        assert(footer@ =~= zeros(8) + footer_tail(kind.number(), payload@));
    }
    footer
}

/// Whether a record's footer was finished.
fn validate_footer(offset: u64, kind: u16, payload: &[u8], footer: &Vec<u8>) -> (r: Result<
    bool,
    FileDagStoreError,
>)
    requires
        footer@.len() == 48,
    ensures
        r == if footer@.subrange(0, 8) != footer_magic() {
            Ok::<bool, FileDagStoreError>(false)
        } else if footer@.subrange(8, 48) != footer_tail(kind, payload@) {
            Err(
                FileDagStoreError::CorruptRecord { offset, reason: "record footer mismatch" },
            )
        } else {
            Ok(true)
        },
{
    let magic = copy_range(footer.as_slice(), 0, 8);
    if !same_bytes(magic.as_slice(), "CAIRNEND".as_bytes()) {
        return Ok(false);
    }
    let tail = copy_range(footer.as_slice(), 8, 48);
    let mut expected: Vec<u8> = Vec::new();
    push_le(&mut expected, payload.len() as u64, 8);
    let sum = checksum(kind, payload);
    push_all(&mut expected, sum.as_slice());
    proof {
        assert(expected@ =~= footer_tail(kind, payload@));
    }
    if !same_bytes(tail.as_slice(), expected.as_slice()) {
        return Err(
            FileDagStoreError::CorruptRecord { offset, reason: "record footer mismatch" },
        );
    }
    Ok(true)
}

/// How many bytes a record takes.
fn record_size(payload_len: usize) -> (size: u64)
    requires
        payload_len <= 0xffff_ffff,
    ensures
        size == record_span(payload_len as nat),
{
    RECORD_HEADER_LEN as u64 + payload_len as u64 + RECORD_FOOTER_LEN as u64
}

fn all_zero(bytes: &Vec<u8>) -> (zero: bool)
    ensures
        zero == (bytes@ == zeros(bytes@.len())),
{
    let mut i: usize = 0;
    while i < bytes.len()
        invariant
            i <= bytes@.len(),
            forall|j: int| 0 <= j < i ==> bytes@[j] == 0,
        decreases bytes@.len() - i,
    {
        if bytes[i] != 0 {
            proof {
                assert(bytes@[i as int] != zeros(bytes@.len())[i as int]);
            }
            return false;
        }
        i = i + 1;
    }
    proof {
        assert(bytes@ =~= zeros(bytes@.len()));
    }
    true
}

/// The result, unless the device failed on a request that lies in bounds.
pub open spec fn faulted<T>(r: Result<T, FileDagStoreError>, reliable: bool) -> bool {
    r matches Err(FileDagStoreError::Device(_)) && !reliable
}

impl<D: BlockDevice> FileDagStore<D> {
    /// The store's invariant.
    pub closed spec fn wf(&self) -> bool {
        &&& self.device.wf()
        &&& self@.in_bounds(self.device.contents().len())
        &&& self.device.contents().len() <= u64::MAX
    }

    /// The bytes of the log.
    pub open spec fn contents(&self) -> Seq<u8> {
        self.inner().contents()
    }

    pub open spec fn reliable(&self) -> bool {
        self.inner().reliable()
    }

    /// The bytes of the log that a power loss leaves.
    pub open spec fn durable(&self) -> Seq<u8> {
        self.inner().durable()
    }

    pub open spec fn steady(&self) -> bool {
        self.inner().steady()
    }

    /// The device holds what it held.
    pub open spec fn same_bytes(&self, other: &Self) -> bool {
        &&& self.contents() == other.contents()
        &&& self.reliable() == other.reliable()
        &&& self.durable() == other.durable()
        &&& other.steady() ==> self.steady()
    }

    /// Nothing but the device's own state has changed.
    pub open spec fn same_as(&self, other: &Self) -> bool {
        &&& self@ == other@
        &&& self.same_bytes(other)
        &&& self.validated() == other.validated()
    }

    /// The log ends within the device.
    pub proof fn lemma_ends_within(&self)
        requires
            self.wf(),
        ensures
            self@.next <= self.contents().len(),
    {
    }

    /// Opens the log on a device and scans it.
    pub fn open(device: D) -> (r: Result<Self, FileDagStoreError>)
        requires
            device.wf(),
        ensures
            match r {
                Ok(store) => store.wf() && untouched(device, store.inner()) && store.validated()
                    == Set::<NodeId>::empty() && scan(device.contents()) == Ok::<
                    LogView,
                    FileDagStoreError,
                >(store@),
                Err(error) => faulted(r, device.reliable()) || scan(device.contents()) == Err::<
                    LogView,
                    FileDagStoreError,
                >(error),
            },
    {
        let size: u64 = device.len();
        let mut store = FileDagStore {
            device,
            next_offset: 0,
            nodes: Table::new(),
            bindings: Table::new(),
            tombstones: Table::new(),
            validated_snapshots: Table::new(),
        };
        proof {
            assert(store@ =~= empty_log());
            assert(store.validated() =~= Set::<NodeId>::empty());
        }
        match store.scan_log() {
            Ok(()) => Ok(store),
            Err(error) => Err(error),
        }
    }

    /// Reads `n` bytes that lie in bounds.
    fn read_bytes(&mut self, offset: u64, n: usize) -> (r: Result<Vec<u8>, FileDagStoreError>)
        requires
            old(self).wf(),
            offset + n <= old(self).contents().len(),
        ensures
            final(self).wf(),
            final(self).same_as(old(self)),
            match r {
                Ok(bytes) => bytes@ == old(self).contents().subrange(offset as int, offset + n),
                Err(error) => faulted(r, old(self).reliable()),
            },
    {
        let mut bytes = zero_bytes(n);
        match self.device.read_at(offset, bytes.as_mut_slice()) {
            Ok(()) => Ok(bytes),
            Err(error) => Err(FileDagStoreError::Device(error)),
        }
    }

    fn scan_log(&mut self) -> (r: Result<(), FileDagStoreError>)
        requires
            old(self).wf(),
        ensures
            final(self).wf(),
            final(self).same_bytes(old(self)),
            final(self).validated() == old(self).validated(),
            match r {
                Ok(()) => old(self)@.scanned(old(self).contents()) == Ok::<
                    LogView,
                    FileDagStoreError,
                >(final(self)@),
                Err(error) => faulted(r, old(self).reliable()) || old(self)@.scanned(
                    old(self).contents(),
                ) == Err::<LogView, FileDagStoreError>(error),
            },
    {
        let ghost contents = self.contents();
        let size: u64 = self.device.len();
        loop
            invariant
                self.wf(),
                size == contents.len(),
                contents == self.contents(),
                self.same_bytes(old(self)),
                self.validated() == old(self).validated(),
                self@.scanned(contents) == old(self)@.scanned(contents),
            decreases size - self@.next,
        {
            let ghost before = self@;
            match self.scan_record(size) {
                Ok(true) => {},
                Ok(false) => {
                    return Ok(());
                },
                Err(error) => {
                    return Err(error);
                },
            }
        }
    }

    /// Takes the next record in; `false` where the log ends.
    fn scan_record(&mut self, size: u64) -> (r: Result<bool, FileDagStoreError>)
        requires
            old(self).wf(),
            size == old(self).contents().len(),
        ensures
            final(self).wf(),
            final(self).same_bytes(old(self)),
            final(self).validated() == old(self).validated(),
            match r {
                Ok(true) => old(self)@.scan_step(old(self).contents()) == Ok::<
                    Option<LogView>,
                    FileDagStoreError,
                >(Some(final(self)@)) && final(self)@.next > old(self)@.next,
                Ok(false) => old(self)@.scan_step(old(self).contents()) == Ok::<
                    Option<LogView>,
                    FileDagStoreError,
                >(None) && final(self)@ == old(self)@,
                Err(error) => faulted(r, old(self).reliable()) || old(self)@.scan_step(
                    old(self).contents(),
                ) == Err::<Option<LogView>, FileDagStoreError>(error),
            },
    {
        let ghost contents = self.contents();
        let offset: u64 = self.next_offset;
        if size - offset < RECORD_HEADER_LEN as u64 {
            return Ok(false);
        }
        let header = match self.read_bytes(offset, RECORD_HEADER_LEN) {
            Ok(header) => header,
            Err(error) => {
                return Err(error);
            },
        };
        if all_zero(&header) {
            return Ok(false);
        }
        proof {
            lemma_pow256_values();
            assert(header@.subrange(0, 2) =~= contents.subrange(offset as int, offset + 2));
            assert(header@.subrange(2, 6) =~= contents.subrange(offset + 2, offset + 6));
            assert(header@.subrange(6, 38) =~= contents.subrange(offset + 6, offset + 38));
        }
        let kind_code: u16 = read_le(header.as_slice(), 0, 2) as u16;
        let long: u64 = read_le(header.as_slice(), 2, 4);
        if long == 0 {
            return Err(
                FileDagStoreError::CorruptRecord { offset, reason: "zero-length record" },
            );
        }
        if long > MAX_RECORD_PAYLOAD as u64 {
            return Err(FileDagStoreError::CorruptRecord { offset, reason: "payload too large" });
        }
        let len: usize = long as usize;
        let total: u64 = record_size(len);
        if total > size - offset {
            return Ok(false);
        }
        let payload = match self.read_bytes(offset + RECORD_HEADER_LEN as u64, len) {
            Ok(payload) => payload,
            Err(error) => {
                return Err(error);
            },
        };
        let footer_offset: u64 = offset + RECORD_HEADER_LEN as u64 + len as u64;
        let footer = match self.read_bytes(footer_offset, RECORD_FOOTER_LEN) {
            Ok(footer) => footer,
            Err(error) => {
                return Err(error);
            },
        };
        proof {
            assert(payload@ =~= payload_at(contents, offset as int));
            assert(footer@.subrange(0, 8) =~= contents.subrange(
                footer_offset as int,
                footer_offset + 8,
            ));
            assert(footer@.subrange(8, 48) =~= contents.subrange(
                footer_offset + 8,
                footer_offset + 48,
            ));
        }
        match validate_footer(offset, kind_code, payload.as_slice(), &footer) {
            Ok(true) => {},
            Ok(false) => {
                return Ok(false);
            },
            Err(error) => {
                return Err(error);
            },
        }
        let kind = match RecordKind::decode(kind_code) {
            Ok(kind) => kind,
            Err(error) => {
                return Err(error);
            },
        };
        let sum = checksum(kind_code, payload.as_slice());
        let stored = copy_range(header.as_slice(), 6, RECORD_HEADER_LEN);
        if !same_bytes(sum.as_slice(), stored.as_slice()) {
            return Err(FileDagStoreError::CorruptRecord { offset, reason: "checksum mismatch" });
        }
        match self.index_record(kind, payload.as_slice()) {
            Ok(()) => {},
            Err(error) => {
                return Err(error);
            },
        }
        self.next_offset = offset + total;
        Ok(true)
    }

    /// Takes the record at the end of the log into the index.
    fn index_record(&mut self, kind: RecordKind, payload: &[u8]) -> (r: Result<
        (),
        FileDagStoreError,
    >)
        requires
            old(self).wf(),
            old(self)@.next + 38 <= old(self).contents().len(),
        ensures
            final(self).wf(),
            final(self).same_bytes(old(self)),
            final(self).validated() == old(self).validated(),
            final(self)@.next == old(self)@.next,
            match r {
                Ok(()) => old(self)@.indexed(old(self).contents(), kind, payload@) == Ok::<
                    LogView,
                    FileDagStoreError,
                >(final(self)@),
                Err(error) => faulted(r, old(self).reliable()) || old(self)@.indexed(
                    old(self).contents(),
                    kind,
                    payload@,
                ) == Err::<LogView, FileDagStoreError>(error),
            },
    {
        let ghost before = self@;
        let offset: u64 = self.next_offset;
        match kind {
            RecordKind::Node(node_kind) => {
                let node = match decode_node(node_kind, payload) {
                    Ok(node) => node,
                    Err(error) => {
                        return Err(FileDagStoreError::Dag(error));
                    },
                };
                let id = match node.id() {
                    Ok(id) => id,
                    Err(error) => {
                        return Err(FileDagStoreError::Dag(error));
                    },
                };
                proof {
                    lemma_decoded(node_kind, payload@, node@);
                    lemma_id_of(id, node@);
                }
                self.nodes.insert(id, offset);
            },
            RecordKind::OperationBinding => {
                if payload.len() != 40 {
                    return Err(
                        FileDagStoreError::CorruptRecord {
                            offset,
                            reason: "binding payload length",
                        },
                    );
                }
                let operation_id: u64 = read_le(payload, 0, 8);
                let commit_id = id_at(payload, 8);
                proof {
                    lemma_id_view(bound_commit(payload@), commit_id);
                }
                match self.validate_commit(commit_id) {
                    Ok(()) => {},
                    Err(error) => {
                        return Err(error);
                    },
                }
                if self.tombstones.contains_key(&operation_id) {
                    return Err(FileDagStoreError::OperationConflict(operation_id));
                }
                if let Some(existing) = self.bindings.get(&operation_id) {
                    if !same_id(existing, &commit_id) {
                        return Err(FileDagStoreError::OperationConflict(operation_id));
                    }
                }
                self.bindings.insert(operation_id, commit_id);
            },
            RecordKind::OperationTombstone => {
                if payload.len() != 40 {
                    return Err(
                        FileDagStoreError::CorruptRecord {
                            offset,
                            reason: "tombstone payload length",
                        },
                    );
                }
                let operation_id: u64 = read_le(payload, 0, 8);
                let commit_id = id_at(payload, 8);
                proof {
                    lemma_id_view(bound_commit(payload@), commit_id);
                }
                match self.validate_commit(commit_id) {
                    Ok(()) => {},
                    Err(error) => {
                        return Err(error);
                    },
                }
                if let Some(existing) = self.tombstones.get(&operation_id) {
                    if !same_id(existing, &commit_id) {
                        return Err(FileDagStoreError::OperationConflict(operation_id));
                    }
                    return Ok(());
                }
                match self.bindings.get(&operation_id) {
                    Some(existing) => {
                        if !same_id(existing, &commit_id) {
                            return Err(FileDagStoreError::OperationConflict(operation_id));
                        }
                    },
                    None => {
                        return Err(FileDagStoreError::OperationConflict(operation_id));
                    },
                }
                self.bindings.remove(&operation_id);
                self.tombstones.insert(operation_id, commit_id);
            },
        }
        Ok(())
    }

    /// Reads the node record at an offset that the index holds, checking it anew.
    fn read_node_at(&mut self, offset: u64) -> (r: Result<Node, FileDagStoreError>)
        requires
            old(self).wf(),
            offset + 38 <= old(self).contents().len(),
        ensures
            final(self).wf(),
            final(self).same_as(old(self)),
            match r {
                Ok(node) => node_result(old(self).contents(), old(self)@.nodes, offset) == Ok::<
                    NodeView,
                    FileDagStoreError,
                >(node@) && node@.problem() is None,
                Err(error) => faulted(r, old(self).reliable()) || node_result(
                    old(self).contents(),
                    old(self)@.nodes,
                    offset,
                ) == Err::<NodeView, FileDagStoreError>(error),
            },
    {
        let ghost contents = self.contents();
        let size: u64 = self.device.len();
        let header = match self.read_bytes(offset, RECORD_HEADER_LEN) {
            Ok(header) => header,
            Err(error) => {
                return Err(error);
            },
        };
        proof {
            lemma_pow256_values();
            assert(header@.subrange(0, 2) =~= contents.subrange(offset as int, offset + 2));
            assert(header@.subrange(2, 6) =~= contents.subrange(offset + 2, offset + 6));
            assert(header@.subrange(6, 38) =~= contents.subrange(offset + 6, offset + 38));
        }
        let kind_code: u16 = read_le(header.as_slice(), 0, 2) as u16;
        let kind = match RecordKind::decode(kind_code) {
            Ok(kind) => kind,
            Err(error) => {
                return Err(error);
            },
        };
        let long: u64 = read_le(header.as_slice(), 2, 4);
        if long > MAX_RECORD_PAYLOAD as u64 {
            return Err(FileDagStoreError::CorruptRecord { offset, reason: "payload too large" });
        }
        let len: usize = long as usize;
        let total: u64 = record_size(len);
        if total > size - offset {
            return Err(FileDagStoreError::CorruptRecord { offset, reason: "record truncated" });
        }
        let payload = match self.read_bytes(offset + RECORD_HEADER_LEN as u64, len) {
            Ok(payload) => payload,
            Err(error) => {
                return Err(error);
            },
        };
        let footer_offset: u64 = offset + RECORD_HEADER_LEN as u64 + len as u64;
        let footer = match self.read_bytes(footer_offset, RECORD_FOOTER_LEN) {
            Ok(footer) => footer,
            Err(error) => {
                return Err(error);
            },
        };
        proof {
            assert(payload@ =~= payload_at(contents, offset as int));
            assert(footer@.subrange(0, 8) =~= contents.subrange(
                footer_offset as int,
                footer_offset + 8,
            ));
            assert(footer@.subrange(8, 48) =~= contents.subrange(
                footer_offset + 8,
                footer_offset + 48,
            ));
        }
        match validate_footer(offset, kind_code, payload.as_slice(), &footer) {
            Ok(true) => {},
            Ok(false) => {
                return Err(
                    FileDagStoreError::CorruptRecord { offset, reason: "record footer missing" },
                );
            },
            Err(error) => {
                return Err(error);
            },
        }
        let node_kind = match kind {
            RecordKind::Node(node_kind) => node_kind,
            _ => {
                return Err(
                    FileDagStoreError::CorruptRecord { offset, reason: "index is not a node" },
                );
            },
        };
        let sum = checksum(kind_code, payload.as_slice());
        let stored = copy_range(header.as_slice(), 6, RECORD_HEADER_LEN);
        if !same_bytes(sum.as_slice(), stored.as_slice()) {
            return Err(FileDagStoreError::CorruptRecord { offset, reason: "checksum mismatch" });
        }
        let node = match decode_node(node_kind, payload.as_slice()) {
            Ok(node) => node,
            Err(error) => {
                return Err(FileDagStoreError::Dag(error));
            },
        };
        let id = match node.id() {
            Ok(id) => id,
            Err(error) => {
                return Err(FileDagStoreError::Dag(error));
            },
        };
        proof {
            lemma_decoded(node_kind, payload@, node@);
            lemma_id_of(id, node@);
        }
        let indexed = match self.nodes.get(&id) {
            Some(at) => *at == offset,
            None => false,
        };
        if !indexed {
            return Err(FileDagStoreError::CorruptRecord { offset, reason: "node id mismatch" });
        }
        Ok(node)
    }

    fn validate_commit(&mut self, commit_id: CommitId) -> (r: Result<(), FileDagStoreError>)
        requires
            old(self).wf(),
        ensures
            final(self).wf(),
            final(self).same_as(old(self)),
            match r {
                Ok(()) => commit_problem(
                    old(self).contents(),
                    old(self)@.nodes,
                    commit_id,
                ) is None,
                Err(error) => faulted(r, old(self).reliable()) || commit_problem(
                    old(self).contents(),
                    old(self)@.nodes,
                    commit_id,
                ) == Some(error),
            },
    {
        let offset: u64 = match self.nodes.get(&commit_id) {
            Some(offset) => *offset,
            None => {
                return Err(FileDagStoreError::Dag(DagError::MissingNode(commit_id)));
            },
        };
        proof {
            assert(self@.nodes.dom().contains(commit_id));
        }
        let node = match self.read_node_at(offset) {
            Ok(node) => node,
            Err(error) => {
                return Err(error);
            },
        };
        match &node {
            Node::Commit(_) => {},
            _ => {
                return Err(FileDagStoreError::Dag(DagError::InvalidReference(commit_id)));
            },
        }
        let id = match node.id() {
            Ok(id) => id,
            Err(error) => {
                return Err(FileDagStoreError::Dag(error));
            },
        };
        proof {
            lemma_id_of(id, node@);
        }
        if !same_id(&id, &commit_id) {
            return Err(FileDagStoreError::Dag(DagError::HashMismatch(commit_id)));
        }
        Ok(())
    }

    /// The node with the given identifier.
    pub fn node(&mut self, id: &NodeId) -> (r: Result<Option<Node>, FileDagStoreError>)
        requires
            old(self).wf(),
        ensures
            final(self).wf(),
            final(self).same_as(old(self)),
            match r {
                Ok(Some(node)) => lookup(old(self).contents(), old(self)@.nodes, *id) == Ok::<
                    NodeView,
                    FileDagStoreError,
                >(node@) && node@.problem() is None,
                Ok(None) => !old(self)@.nodes.dom().contains(*id),
                Err(error) => faulted(r, old(self).reliable()) || (
                old(self)@.nodes.dom().contains(*id) && lookup(
                    old(self).contents(),
                    old(self)@.nodes,
                    *id,
                ) == Err::<NodeView, FileDagStoreError>(error)),
            },
    {
        let offset: u64 = match self.nodes.get(id) {
            Some(offset) => *offset,
            None => {
                return Ok(None);
            },
        };
        proof {
            assert(self@.nodes.dom().contains(*id));
        }
        match self.read_node_at(offset) {
            Ok(node) => Ok(Some(node)),
            Err(error) => Err(error),
        }
    }

    /// The node with the given identifier, which has to be there.
    pub(crate) fn read_required_node(&mut self, id: NodeId) -> (r: Result<
        Node,
        FileDagStoreError,
    >)
        requires
            old(self).wf(),
        ensures
            final(self).wf(),
            final(self).same_as(old(self)),
            match r {
                Ok(node) => lookup(old(self).contents(), old(self)@.nodes, id) == Ok::<
                    NodeView,
                    FileDagStoreError,
                >(node@) && node@.problem() is None,
                Err(error) => faulted(r, old(self).reliable()) || lookup(
                    old(self).contents(),
                    old(self)@.nodes,
                    id,
                ) == Err::<NodeView, FileDagStoreError>(error),
            },
    {
        match self.node(&id) {
            Ok(Some(node)) => Ok(node),
            Ok(None) => Err(FileDagStoreError::MissingNode(id)),
            Err(error) => Err(error),
        }
    }

    pub fn operation_binding(&self, operation_id: OperationId) -> (commit: Option<CommitId>)
        ensures
            commit == if self@.bindings.dom().contains(operation_id.0) {
                Some(self@.bindings[operation_id.0])
            } else {
                None
            },
    {
        match self.bindings.get(&operation_id.get()) {
            Some(commit) => Some(*commit),
            None => None,
        }
    }

    pub fn operation_tombstone(&self, operation_id: OperationId) -> (commit: Option<CommitId>)
        ensures
            commit == if self@.tombstones.dom().contains(operation_id.0) {
                Some(self@.tombstones[operation_id.0])
            } else {
                None
            },
    {
        match self.tombstones.get(&operation_id.get()) {
            Some(commit) => Some(*commit),
            None => None,
        }
    }

    pub fn next_offset(&self) -> (offset: u64)
        ensures
            offset == self@.next,
    {
        self.next_offset
    }

    pub fn into_inner(self) -> (device: D)
        requires
            self.wf(),
        ensures
            device == self.inner(),
            device.wf(),
            device.contents() == self.contents(),
            device.reliable() == self.reliable(),
    {
        self.device
    }
}


/// The bytes after each write of an append add up to the finished record.
proof fn lemma_append_writes(
    contents: Seq<u8>,
    at: int,
    header: Seq<u8>,
    payload: Seq<u8>,
    magic: Seq<u8>,
    tail: Seq<u8>,
)
    requires
        0 <= at,
        header.len() == 38,
        magic.len() == 8,
        tail.len() == 40,
        at + 86 + payload.len() <= contents.len(),
    ensures
        ({
            let foot = at + 38 + payload.len();
            let a = splice(contents, at, header);
            let b = splice(a, at + 38, payload);
            let c = splice(b, foot, zeros(8) + tail);
            let d = splice(c, foot, magic);
            &&& a.len() == contents.len()
            &&& b.len() == contents.len()
            &&& c.len() == contents.len()
            &&& d == splice(contents, at, header + payload + magic + tail)
        }),
{
    let foot = at + 38 + payload.len();
    let a = splice(contents, at, header);
    let b = splice(a, at + 38, payload);
    let c = splice(b, foot, zeros(8) + tail);
    let d = splice(c, foot, magic);
    assert(d =~= splice(contents, at, header + payload + magic + tail));
}

/// Whether a power loss leaves the first `limit` bytes that a steady device held before.
pub open spec fn front_kept<D: BlockDevice>(
    before: FileDagStore<D>,
    after: FileDagStore<D>,
    limit: int,
) -> bool {
    before.steady() && saved(before.inner()) ==> same_front(
        before.contents(),
        after.durable(),
        limit,
    )
}

/// Whether a power loss leaves the log as it was, or with the record that was appended, or,
/// where the append failed (`done` is false), with what is left of that record.
pub open spec fn append_leaves<D: BlockDevice>(
    before: FileDagStore<D>,
    after: FileDagStore<D>,
    kind: RecordKind,
    payload: Seq<u8>,
    done: bool,
) -> bool {
    let at = before@.next as int;
    let c = before.contents();
    before.steady() && saved(before.inner()) ==> {
        ||| after.durable() == c && after@.next == at
        ||| done && after.durable() == with_record(c, at, kind.number(), payload)
        ||| !done && record_cut(c, at, kind.number(), payload, after.durable())
    }
}

impl<D: BlockDevice> FileDagStore<D> {
    /// Appends a record: header and payload first, then the footer, and the
    /// footer's magic last, each made durable before the next.
    fn append_record(&mut self, kind: RecordKind, payload: &[u8]) -> (r: Result<
        (),
        FileDagStoreError,
    >)
        requires
            old(self).wf(),
        ensures
            final(self).wf(),
            final(self).reliable() == old(self).reliable(),
            final(self).validated() == old(self).validated(),
            final(self).contents().len() == old(self).contents().len(),
            old(self).steady() ==> final(self).steady() && (r is Ok ==> saved(
                final(self).inner(),
            )),
            if payload@.len() > MAX_RECORD_PAYLOAD {
                r == Err::<(), FileDagStoreError>(
                    FileDagStoreError::RecordTooLarge(payload@.len() as usize),
                ) && final(self).same_as(old(self))
            } else if old(self)@.next + record_span(payload@.len())
                > old(self).contents().len() {
                r == Err::<(), FileDagStoreError>(
                    FileDagStoreError::CapacityExhausted {
                        needed: record_span(payload@.len()) as u64,
                        remaining: (old(self).contents().len() - old(self)@.next) as u64,
                    },
                ) && final(self).same_as(old(self))
            } else {
                &&& match r {
                    Ok(()) => final(self)@ == (LogView {
                        next: (old(self)@.next + record_span(payload@.len())) as u64,
                        ..old(self)@
                    }),
                    Err(error) => faulted(r, old(self).reliable()) && final(self)@ == old(
                        self,
                    )@,
                }
                &&& old(self).reliable() ==> r is Ok && final(self).contents() == with_record(
                    old(self).contents(),
                    old(self)@.next as int,
                    kind.number(),
                    payload@,
                )
            },
            append_leaves(*old(self), *final(self), kind, payload@, r is Ok),
            front_kept(*old(self), *final(self), old(self)@.next as int),
    {
        let header = encode_header(kind, payload);
        let ghost code = kind.number();
        proof {
            lemma_le_bytes_len(code as nat, 2);
            lemma_le_bytes_len(payload@.len(), 4);
        }
        if payload.len() > MAX_RECORD_PAYLOAD {
            return Err(FileDagStoreError::RecordTooLarge(payload.len()));
        }
        let size: u64 = record_size(payload.len());
        let capacity: u64 = self.device.len();
        let remaining: u64 = capacity - self.next_offset;
        if size > remaining {
            return Err(FileDagStoreError::CapacityExhausted { needed: size, remaining });
        }
        let footer = encode_footer(kind, payload);
        let at: u64 = self.next_offset;
        let foot: u64 = at + RECORD_HEADER_LEN as u64 + payload.len() as u64;
        let ghost contents = self.contents();
        let ghost log = self@;
        let ghost reliable = self.reliable();
        proof {
            lemma_magic_len();
            lemma_le_bytes_len(payload@.len(), 8);
            lemma_append_writes(
                contents,
                at as int,
                header@,
                payload@,
                footer_magic(),
                footer_tail(code, payload@),
            );
            assert(record_bytes(code, payload@) =~= header@ + payload@ + footer_magic()
                + footer_tail(code, payload@));
        }
        let ghost steady = self.steady() && saved(self.inner());
        let ghost second = with_payload(contents, at as int, code, payload@);
        let ghost third = with_tail(contents, at as int, code, payload@);
        let wrote = self.device.write_at(at, header.as_slice());
        let ghost left = self.device.durable();
        proof {
            if steady {
                lemma_between_two_writes(left, left, contents, at as int, header@, payload@);
                lemma_cut_front(contents, at as int, code, payload@, left);
            }
        }
        match wrote {
            Ok(()) => {},
            Err(error) => {
                return Err(FileDagStoreError::Device(error));
            },
        }
        let wrote = self.device.write_at(at + RECORD_HEADER_LEN as u64, payload);
        let ghost more = self.device.durable();
        proof {
            if steady {
                lemma_between_two_writes(left, more, contents, at as int, header@, payload@);
                lemma_cut_front(contents, at as int, code, payload@, more);
            }
        }
        match wrote {
            Ok(()) => {},
            Err(error) => {
                return Err(FileDagStoreError::Device(error));
            },
        }
        let flushed = self.device.flush_data();
        proof {
            if steady {
                lemma_between_again(more, self.device.durable(), contents, second);
                lemma_cut_front(contents, at as int, code, payload@, self.device.durable());
            }
        }
        match flushed {
            Ok(()) => {},
            Err(error) => {
                return Err(FileDagStoreError::Device(error));
            },
        }
        let wrote = self.device.write_at(foot, footer.as_slice());
        let ghost left = self.device.durable();
        proof {
            if steady {
                lemma_cut_front(contents, at as int, code, payload@, left);
            }
        }
        match wrote {
            Ok(()) => {},
            Err(error) => {
                return Err(FileDagStoreError::Device(error));
            },
        }
        let flushed = self.device.flush_data();
        proof {
            if steady {
                lemma_between_again(left, self.device.durable(), second, third);
                lemma_cut_front(contents, at as int, code, payload@, self.device.durable());
            }
        }
        match flushed {
            Ok(()) => {},
            Err(error) => {
                return Err(FileDagStoreError::Device(error));
            },
        }
        let wrote = self.device.write_at(foot, "CAIRNEND".as_bytes());
        let ghost left = self.device.durable();
        proof {
            if steady {
                lemma_cut_front(contents, at as int, code, payload@, left);
            }
        }
        match wrote {
            Ok(()) => {},
            Err(error) => {
                return Err(FileDagStoreError::Device(error));
            },
        }
        let flushed = self.device.flush_data();
        proof {
            if steady {
                lemma_between_again(
                    left,
                    self.device.durable(),
                    third,
                    with_record(contents, at as int, code, payload@),
                );
                lemma_cut_front(contents, at as int, code, payload@, self.device.durable());
            }
        }
        match flushed {
            Ok(()) => {},
            Err(error) => {
                return Err(FileDagStoreError::Device(error));
            },
        }
        self.next_offset = at + size;
        Ok(())
    }

    /// Appends a node, unless it is there already.
    pub fn append_node(&mut self, node: &Node) -> (r: Result<NodeId, FileDagStoreError>)
        requires
            old(self).wf(),
        ensures
            final(self).wf(),
            final(self).reliable() == old(self).reliable(),
            final(self).validated() == old(self).validated(),
            final(self).contents().len() == old(self).contents().len(),
            carried(old(self).inner(), final(self).inner(), r is Ok),
            front_kept(*old(self), *final(self), old(self)@.next as int),
            r is Ok ==> old(self)@.next <= final(self)@.next,
            append_leaves(
                *old(self),
                *final(self),
                RecordKind::Node(node@.kind()),
                node@.payload(),
                r is Ok,
            ),
            match append_problem(old(self).contents(), old(self)@, node@) {
                Some(error) => (r == Err::<NodeId, FileDagStoreError>(error) || faulted(
                    r,
                    old(self).reliable(),
                )) && final(self).same_as(old(self)),
                None => {
                    &&& match r {
                        Ok(id) => id == id_of(node@) && id@ == node@.digest() && final(self)@
                            == appended(old(self)@, node@),
                        Err(error) => faulted(r, old(self).reliable()) && final(self)@ == old(
                            self,
                        )@,
                    }
                    &&& old(self).reliable() ==> r is Ok && final(self).contents()
                        == appended_contents(old(self).contents(), old(self)@, node@)
                },
            },
            old(self).reliable() ==> logged(
                old(self).contents(),
                old(self)@,
                (LogRequest::Append { node: node@ }),
            ) == (r.err(), final(self).contents(), final(self)@),
            old(self).reliable() && settled(old(self).contents(), old(self)@) ==> settled(
                final(self).contents(),
                final(self)@,
            ),
            old(self).reliable() && filed(old(self).contents(), old(self)@) ==> filed(
                final(self).contents(),
                final(self)@,
            ) && keeps_nodes(
                old(self).contents(),
                old(self)@,
                final(self).contents(),
                final(self)@,
            ),
            old(self).reliable() && filed(old(self).contents(), old(self)@) && r is Ok ==> lookup(
                final(self).contents(),
                final(self)@.nodes,
                id_of(node@),
            ) == Ok::<NodeView, FileDagStoreError>(node@),
    {
        let ghost contents = self.contents();
        let ghost log = self@;
        let payload = match encode_node_payload(node) {
            Ok(payload) => payload,
            Err(error) => {
                return Err(FileDagStoreError::Dag(error));
            },
        };
        let id = match node.id() {
            Ok(id) => id,
            Err(error) => {
                return Err(FileDagStoreError::Dag(error));
            },
        };
        proof {
            lemma_id_of(id, node@);
        }
        if let Some(offset) = self.nodes.get(&id) {
            let offset: u64 = *offset;
            proof {
                assert(log.nodes.dom().contains(id));
            }
            match self.read_node_at(offset) {
                Ok(existing) => {
                    if !same_node(&existing, node) {
                        return Err(FileDagStoreError::Dag(DagError::HashMismatch(id)));
                    }
                },
                Err(error) => {
                    return Err(error);
                },
            }
            return Ok(id);
        }
        let at: u64 = self.next_offset;
        let kind = RecordKind::Node(node.kind());
        match self.append_record(kind, payload.as_slice()) {
            Ok(()) => {},
            Err(error) => {
                return Err(error);
            },
        }
        self.nodes.insert(id, at);
        proof {
            if old(self).reliable() {
                lemma_append_laws(contents, log, node@, id);
            }
        }
        Ok(id)
    }

    /// Binds an operation to a commit that is there.
    pub fn bind_operation(&mut self, operation_id: OperationId, commit_id: CommitId) -> (r: Result<
        (),
        FileDagStoreError,
    >)
        requires
            old(self).wf(),
        ensures
            final(self).wf(),
            final(self).reliable() == old(self).reliable(),
            final(self).validated() == old(self).validated(),
            final(self).contents().len() == old(self).contents().len(),
            carried(old(self).inner(), final(self).inner(), r is Ok),
            front_kept(*old(self), *final(self), old(self)@.next as int),
            r is Ok ==> old(self)@.next <= final(self)@.next,
            append_leaves(
                *old(self),
                *final(self),
                RecordKind::OperationBinding,
                binding_payload(operation_id.0, commit_id),
                r is Ok,
            ),
            match old(self)@.bind(old(self).contents(), operation_id.0, commit_id) {
                Err(error) => (r == Err::<(), FileDagStoreError>(error) || faulted(
                    r,
                    old(self).reliable(),
                )) && final(self).same_as(old(self)),
                Ok(after) => if old(self)@.bindings.dom().contains(operation_id.0) {
                    (r is Ok || faulted(r, old(self).reliable())) && final(self).same_as(
                        old(self),
                    )
                } else {
                    control_appended(
                        old(self).contents(),
                        old(self)@,
                        RecordKind::OperationBinding,
                        binding_payload(operation_id.0, commit_id),
                        after,
                        r,
                        final(self).contents(),
                        final(self)@,
                        old(self).reliable(),
                    )
                },
            },
            old(self).reliable() ==> logged(
                old(self).contents(),
                old(self)@,
                (LogRequest::Bind { operation: operation_id.0, commit: commit_id }),
            ) == (r.err(), final(self).contents(), final(self)@),
            old(self).reliable() && settled(old(self).contents(), old(self)@) ==> settled(
                final(self).contents(),
                final(self)@,
            ),
    {
        let ghost contents = self.contents();
        let ghost log = self@;
        let operation: u64 = operation_id.get();
        match self.validate_commit(commit_id) {
            Ok(()) => {},
            Err(error) => {
                return Err(error);
            },
        }
        if self.tombstones.contains_key(&operation) {
            return Err(FileDagStoreError::OperationConflict(operation));
        }
        if let Some(existing) = self.bindings.get(&operation) {
            if !same_id(existing, &commit_id) {
                return Err(FileDagStoreError::OperationConflict(operation));
            }
            return Ok(());
        }
        let payload = control_payload(operation, commit_id);
        match self.append_record(RecordKind::OperationBinding, payload.as_slice()) {
            Ok(()) => {},
            Err(error) => {
                return Err(error);
            },
        }
        self.bindings.insert(operation, commit_id);
        proof {
            lemma_binding_payload(operation, commit_id);
            if old(self).reliable() && settled(contents, log) {
                law_appended_record_is_scanned(
                    contents,
                    log,
                    RecordKind::OperationBinding,
                    payload@,
                    LogView { bindings: log.bindings.insert(operation, commit_id), ..log },
                );
            }
        }
        Ok(())
    }

    /// Puts a durable tombstone on an active binding. The operation no longer holds
    /// its commit but stays known after a reopen.
    pub fn tombstone_operation(
        &mut self,
        operation_id: OperationId,
        commit_id: CommitId,
    ) -> (r: Result<(), FileDagStoreError>)
        requires
            old(self).wf(),
        ensures
            final(self).wf(),
            final(self).reliable() == old(self).reliable(),
            final(self).validated() == old(self).validated(),
            final(self).contents().len() == old(self).contents().len(),
            carried(old(self).inner(), final(self).inner(), r is Ok),
            front_kept(*old(self), *final(self), old(self)@.next as int),
            r is Ok ==> old(self)@.next <= final(self)@.next,
            append_leaves(
                *old(self),
                *final(self),
                RecordKind::OperationTombstone,
                binding_payload(operation_id.0, commit_id),
                r is Ok,
            ),
            match old(self)@.tombstone(old(self).contents(), operation_id.0, commit_id) {
                Err(error) => (r == Err::<(), FileDagStoreError>(error) || faulted(
                    r,
                    old(self).reliable(),
                )) && final(self).same_as(old(self)),
                Ok(after) => if old(self)@.tombstones.dom().contains(operation_id.0) {
                    (r is Ok || faulted(r, old(self).reliable())) && final(self).same_as(
                        old(self),
                    )
                } else {
                    control_appended(
                        old(self).contents(),
                        old(self)@,
                        RecordKind::OperationTombstone,
                        binding_payload(operation_id.0, commit_id),
                        after,
                        r,
                        final(self).contents(),
                        final(self)@,
                        old(self).reliable(),
                    )
                },
            },
            old(self).reliable() ==> logged(
                old(self).contents(),
                old(self)@,
                (LogRequest::Tombstone { operation: operation_id.0, commit: commit_id }),
            ) == (r.err(), final(self).contents(), final(self)@),
            old(self).reliable() && settled(old(self).contents(), old(self)@) ==> settled(
                final(self).contents(),
                final(self)@,
            ),
    {
        let ghost contents = self.contents();
        let ghost log = self@;
        let operation: u64 = operation_id.get();
        match self.validate_commit(commit_id) {
            Ok(()) => {},
            Err(error) => {
                return Err(error);
            },
        }
        if let Some(existing) = self.tombstones.get(&operation) {
            if !same_id(existing, &commit_id) {
                return Err(FileDagStoreError::OperationConflict(operation));
            }
            return Ok(());
        }
        match self.bindings.get(&operation) {
            Some(existing) => {
                if !same_id(existing, &commit_id) {
                    return Err(FileDagStoreError::OperationConflict(operation));
                }
            },
            None => {
                return Err(FileDagStoreError::OperationConflict(operation));
            },
        }
        let payload = control_payload(operation, commit_id);
        match self.append_record(RecordKind::OperationTombstone, payload.as_slice()) {
            Ok(()) => {},
            Err(error) => {
                return Err(error);
            },
        }
        self.bindings.remove(&operation);
        self.tombstones.insert(operation, commit_id);
        proof {
            lemma_binding_payload(operation, commit_id);
            if old(self).reliable() && settled(contents, log) {
                law_appended_record_is_scanned(
                    contents,
                    log,
                    RecordKind::OperationTombstone,
                    payload@,
                    LogView {
                        bindings: log.bindings.remove(operation),
                        tombstones: log.tombstones.insert(operation, commit_id),
                        ..log
                    },
                );
            }
        }
        Ok(())
    }

    /// Notes that a snapshot's digest was found right.
    pub(crate) fn note_validated(&mut self, snapshot_id: NodeId)
        requires
            old(self).wf(),
        ensures
            final(self).wf(),
            final(self)@ == old(self)@,
            final(self).same_bytes(old(self)),
            final(self).validated() == old(self).validated().insert(snapshot_id),
    {
        self.validated_snapshots.insert(snapshot_id, true);
        proof {
            assert(self.validated() =~= old(self).validated().insert(snapshot_id));
        }
    }

    /// Whether a snapshot's digest was found right before.
    pub(crate) fn is_validated(&self, snapshot_id: &NodeId) -> (known: bool)
        ensures
            known == self.validated().contains(*snapshot_id),
    {
        self.validated_snapshots.contains_key(snapshot_id)
    }
}

/// The payload of a binding or tombstone record.
fn control_payload(operation: u64, commit_id: CommitId) -> (payload: Vec<u8>)
    ensures
        payload@ == binding_payload(operation, commit_id),
{
    let mut payload: Vec<u8> = Vec::with_capacity(40);
    push_le(&mut payload, operation, 8);
    push_all(&mut payload, commit_id.as_slice());
    proof {
        assert(payload@ =~= binding_payload(operation, commit_id));
    }
    payload
}

/// Why there is no room for a record, if there is none.
pub open spec fn room_problem(size: nat, log: LogView, payload_len: nat) -> Option<
    FileDagStoreError,
> {
    if payload_len > MAX_RECORD_PAYLOAD {
        Some(FileDagStoreError::RecordTooLarge(payload_len as usize))
    } else if log.next + record_span(payload_len) > size {
        Some(
            FileDagStoreError::CapacityExhausted {
                needed: record_span(payload_len) as u64,
                remaining: (size - log.next) as u64,
            },
        )
    } else {
        None
    }
}

/// Why a node cannot be appended, if it cannot.
pub open spec fn append_problem(contents: Seq<u8>, log: LogView, node: NodeView) -> Option<
    FileDagStoreError,
> {
    if node.problem() is Some {
        Some(FileDagStoreError::Dag(node.problem()->0))
    } else if log.nodes.dom().contains(id_of(node)) {
        match node_result(contents, log.nodes, log.nodes[id_of(node)]) {
            Err(error) => Some(error),
            Ok(existing) => if existing == node {
                None
            } else {
                Some(FileDagStoreError::Dag(DagError::HashMismatch(id_of(node))))
            },
        }
    } else {
        room_problem(contents.len(), log, node.payload().len())
    }
}

/// The index after a node was appended.
pub open spec fn appended(log: LogView, node: NodeView) -> LogView {
    if log.nodes.dom().contains(id_of(node)) {
        log
    } else {
        LogView {
            next: (log.next + record_span(node.payload().len())) as u64,
            nodes: log.nodes.insert(id_of(node), log.next),
            ..log
        }
    }
}

/// The bytes of the log after a node was appended.
pub open spec fn appended_contents(contents: Seq<u8>, log: LogView, node: NodeView) -> Seq<u8> {
    if log.nodes.dom().contains(id_of(node)) {
        contents
    } else {
        splice(
            contents,
            log.next as int,
            record_bytes(node.kind().number(), node.payload()),
        )
    }
}

/// Every node that could be looked up before is found as it was.
pub open spec fn keeps_nodes(
    before: Seq<u8>,
    old_log: LogView,
    after: Seq<u8>,
    new_log: LogView,
) -> bool {
    forall|id: NodeId| #[trigger]
        old_log.nodes.dom().contains(id) ==> new_log.nodes.dom().contains(id) && lookup(
            after,
            new_log.nodes,
            id,
        ) == lookup(before, old_log.nodes, id)
}

/// What appending a binding or tombstone record comes to.
pub open spec fn control_appended(
    contents: Seq<u8>,
    log: LogView,
    kind: RecordKind,
    payload: Seq<u8>,
    indexed: LogView,
    r: Result<(), FileDagStoreError>,
    new_contents: Seq<u8>,
    new_log: LogView,
    reliable: bool,
) -> bool {
    match room_problem(contents.len(), log, payload.len()) {
        Some(error) => r == Err::<(), FileDagStoreError>(error) && new_log == log && new_contents
            == contents || (faulted(r, reliable) && new_log == log),
        None => {
            &&& match r {
                Ok(()) => new_log == (LogView {
                    next: (log.next + record_span(payload.len())) as u64,
                    ..indexed
                }),
                Err(error) => faulted(r, reliable) && new_log == log,
            }
            &&& reliable ==> r is Ok && new_contents == splice(
                contents,
                log.next as int,
                record_bytes(kind.number(), payload),
            )
        },
    }
}

/// A request that may grow the log.
pub enum LogRequest {
    Append { node: NodeView },
    Bind { operation: u64, commit: CommitId },
    Tombstone { operation: u64, commit: CommitId },
}

/// What appending a control record to a log on a reliable device gives: the error if there
/// is one, the bytes and the index.
pub open spec fn control_logged(
    contents: Seq<u8>,
    log: LogView,
    kind: RecordKind,
    payload: Seq<u8>,
    indexed: LogView,
) -> (Option<FileDagStoreError>, Seq<u8>, LogView) {
    match room_problem(contents.len(), log, payload.len()) {
        Some(error) => (Some(error), contents, log),
        None => (
            None,
            splice(contents, log.next as int, record_bytes(kind.number(), payload)),
            LogView { next: (log.next + record_span(payload.len())) as u64, ..indexed },
        ),
    }
}

/// What a request gives on a reliable device: the error if there is one, the bytes and the
/// index.
pub open spec fn logged(contents: Seq<u8>, log: LogView, request: LogRequest) -> (
    Option<FileDagStoreError>,
    Seq<u8>,
    LogView,
) {
    match request {
        LogRequest::Append { node } => match append_problem(contents, log, node) {
            Some(error) => (Some(error), contents, log),
            None => (None, appended_contents(contents, log, node), appended(log, node)),
        },
        LogRequest::Bind { operation, commit } => match log.bind(contents, operation, commit) {
            Err(error) => (Some(error), contents, log),
            Ok(indexed) => if log.bindings.dom().contains(operation) {
                (None, contents, log)
            } else {
                control_logged(
                    contents,
                    log,
                    RecordKind::OperationBinding,
                    binding_payload(operation, commit),
                    indexed,
                )
            },
        },
        LogRequest::Tombstone { operation, commit } => match log.tombstone(
            contents,
            operation,
            commit,
        ) {
            Err(error) => (Some(error), contents, log),
            Ok(indexed) => if log.tombstones.dom().contains(operation) {
                (None, contents, log)
            } else {
                control_logged(
                    contents,
                    log,
                    RecordKind::OperationTombstone,
                    binding_payload(operation, commit),
                    indexed,
                )
            },
        },
    }
}

pub proof fn lemma_append_laws(contents: Seq<u8>, log: LogView, node: NodeView, id: NodeId)
    requires
        contents.len() <= u64::MAX,
        node.problem() is None,
        id == id_of(node),
        !log.nodes.dom().contains(id),
        log.next + record_span(node.payload().len()) <= contents.len(),
        node.payload().len() <= MAX_RECORD_PAYLOAD,
    ensures
        settled(contents, log) ==> settled(
            appended_contents(contents, log, node),
            appended(log, node),
        ),
        filed(contents, log) ==> filed(
            appended_contents(contents, log, node),
            appended(log, node),
        ) && keeps_nodes(
            contents,
            log,
            appended_contents(contents, log, node),
            appended(log, node),
        ) && lookup(
            appended_contents(contents, log, node),
            appended(log, node).nodes,
            id,
        ) == Ok::<NodeView, FileDagStoreError>(node),
{
    let kind = RecordKind::Node(node.kind());
    let code = kind.number();
    let payload = node.payload();
    let after = appended_contents(contents, log, node);
    let grown = appended(log, node);
    lemma_node_indexed(contents, log, node);
    if settled(contents, log) {
        law_appended_record_is_scanned(
            contents,
            log,
            kind,
            payload,
            LogView { nodes: log.nodes.insert(id, log.next), ..log },
        );
    }
    if filed(contents, log) {
        law_appended_node_is_found(contents, log, node);
        assert forall|other: NodeId| #[trigger] log.nodes.dom().contains(other) implies lookup(
            after,
            grown.nodes,
            other,
        ) == lookup(contents, log.nodes, other) by {
            law_append_keeps_nodes(contents, log, code, payload, Some(id), other);
        }
        lemma_appended_filed(contents, log, code, payload, id);
    }
}

/// A log that a power loss leaves untouched is found again by opening it, with every node
/// that is indexed. Appending a node or a control record keeps it so.
pub proof fn law_saved_log_survives_power_loss<D: BlockDevice>(store: FileDagStore<D>, id: NodeId)
    requires
        saved(store.inner()),
        settled(store.contents(), store@),
    ensures
        scan(store.durable()) == Ok::<LogView, FileDagStoreError>(store@),
        lookup(store.durable(), store@.nodes, id) == lookup(store.contents(), store@.nodes, id),
{
}

/// Whatever becomes of an append on a steady device, what a power loss leaves opens with the
/// log before or with the whole record; a header that is itself torn is left out.
pub proof fn law_append_survives_power_loss_or_leaves_nothing<D: BlockDevice>(
    before: FileDagStore<D>,
    after: FileDagStore<D>,
    kind: RecordKind,
    payload: Seq<u8>,
    indexed: LogView,
    done: bool,
)
    requires
        before.wf(),
        before.steady(),
        saved(before.inner()),
        settled(before.contents(), before@),
        append_leaves(before, after, kind, payload, done),
        before@.next + record_span(payload.len()) <= before.contents().len(),
        0 < payload.len() <= MAX_RECORD_PAYLOAD,
        before@.indexed(before.contents(), kind, payload) == Ok::<LogView, FileDagStoreError>(
            indexed,
        ),
        ({
            let front = after.durable().subrange(before@.next as int, before@.next + 38);
            front == zeros(38) || front == record_header(kind.number(), payload)
        }),
    ensures
        scan(after.durable()) == Ok::<LogView, FileDagStoreError>(before@) || scan(after.durable())
            == Ok::<LogView, FileDagStoreError>(
            LogView { next: (before@.next + record_span(payload.len())) as u64, ..indexed },
        ),
{
    let c = before.contents();
    if after.durable() == with_record(c, before@.next as int, kind.number(), payload) {
        law_appended_record_is_scanned(c, before@, kind, payload, indexed);
    } else if after.durable() != c {
        law_interrupted_append_is_all_or_nothing(
            c,
            before@,
            kind,
            payload,
            indexed,
            after.durable(),
        );
    }
}

} // verus!
