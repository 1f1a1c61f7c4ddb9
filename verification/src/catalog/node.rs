//! Graph nodes and their canonical encoding.
use vstd::prelude::*;
use vstd::string::*;

use crate::bytes::{
    copy_range, id_at, le_bytes, le_value, lemma_le_bytes_len, lemma_le_canonical,
    lemma_le_roundtrip, lemma_le_value_bound, lemma_pow256_values, push_all, push_le, read_le,
    same_bytes, same_id, lemma_id_view,
};
use crate::catalog::ids::{same_optional_id, NodeId, OperationId};
use crate::first::{first_some, lemma_first_at, lemma_first_clear, lemma_first_none};
use crate::hashing::{
    absorbed, blake3_digest, hasher_finish, hasher_new, hasher_update,
};

verus! {

/// The largest number of entries in a range map.
pub const MAX_CHILDREN: usize = 256;

/// The highest level of a range map.
pub const MAX_LEVEL: u8 = 8;

pub const MAX_LOGICAL_FILE_SIZE: u64 = 4_294_967_296;

pub const MAX_CONTENT_NODE_PAYLOAD: usize = 8_388_608;

pub const MAX_SNAPSHOT_EXTENTS: usize = 1_048_576;

#[derive(Clone, Copy, Debug, PartialEq, Eq, Structural)]
pub enum NodeKind {
    Content,
    ZeroRun,
    RangeMap,
    Snapshot,
    Commit,
}

impl NodeKind {
    /// The number that stands for the kind in encodings.
    pub open spec fn number(self) -> u16 {
        match self {
            NodeKind::Content => 1,
            NodeKind::ZeroRun => 2,
            NodeKind::RangeMap => 3,
            NodeKind::Snapshot => 4,
            NodeKind::Commit => 5,
        }
    }

    pub fn code(self) -> (code: u16)
        ensures
            code == self.number(),
    {
        match self {
            NodeKind::Content => 1,
            NodeKind::ZeroRun => 2,
            NodeKind::RangeMap => 3,
            NodeKind::Snapshot => 4,
            NodeKind::Commit => 5,
        }
    }

    pub fn from_code(value: u16) -> (r: Result<Self, DagError>)
        ensures
            match kind_numbered(value as nat) {
                Some(kind) => r == Ok::<Self, DagError>(kind),
                None => r == Err::<Self, DagError>(DagError::InvalidKind(value)),
            },
    {
        match value {
            1 => Ok(NodeKind::Content),
            2 => Ok(NodeKind::ZeroRun),
            3 => Ok(NodeKind::RangeMap),
            4 => Ok(NodeKind::Snapshot),
            5 => Ok(NodeKind::Commit),
            _ => Err(DagError::InvalidKind(value)),
        }
    }
}

/// The kind with the given number.
pub open spec fn kind_numbered(value: nat) -> Option<NodeKind> {
    if value == 1 {
        Some(NodeKind::Content)
    } else if value == 2 {
        Some(NodeKind::ZeroRun)
    } else if value == 3 {
        Some(NodeKind::RangeMap)
    } else if value == 4 {
        Some(NodeKind::Snapshot)
    } else if value == 5 {
        Some(NodeKind::Commit)
    } else {
        None
    }
}

#[derive(Debug, PartialEq, Eq)]
pub struct ContentNode {
    pub bytes: Vec<u8>,
}

#[derive(Clone, Copy, Debug, PartialEq, Eq, Structural)]
pub struct ZeroRunNode {
    pub len: u64,
}

/// One run of logical bytes of a range map.
#[derive(Clone, Copy, Debug, PartialEq, Eq)]
pub struct RangeMapEntry {
    pub logical_start: u64,
    pub logical_len: u64,
    pub content_offset: u64,
    pub child_kind: NodeKind,
    pub child: NodeId,
}

#[derive(Debug, PartialEq, Eq)]
pub struct RangeMapNode {
    pub level: u8,
    pub children: Vec<RangeMapEntry>,
}

#[derive(Clone, Copy, Debug, PartialEq, Eq)]
pub struct SnapshotNode {
    pub logical_size: u64,
    pub range_map_root: NodeId,
    pub content_digest: NodeId,
}

#[derive(Clone, Copy, Debug, PartialEq, Eq)]
pub struct CommitNode {
    pub snapshot: NodeId,
    pub parent: Option<NodeId>,
}

#[derive(Debug, PartialEq, Eq)]
pub enum Node {
    Content(ContentNode),
    ZeroRun(ZeroRunNode),
    RangeMap(RangeMapNode),
    Snapshot(SnapshotNode),
    Commit(CommitNode),
}

#[derive(Clone, Copy, Debug, PartialEq, Eq)]
pub enum DagError {
    InvalidKind(u16),
    InvalidPayload(&'static str),
    InvalidReference(NodeId),
    ReferenceKind { expected: NodeKind, actual: NodeKind },
    ArithmeticOverflow,
    MissingNode(NodeId),
    HashMismatch(NodeId),
    InvalidSnapshot(&'static str),
    ResourceLimit(&'static str),
    OperationConflict(OperationId),
}

/// A node as mathematical values.
#[verifier::ext_equal]
pub enum NodeView {
    Content(Seq<u8>),
    ZeroRun(u64),
    RangeMap { level: u8, children: Seq<RangeMapEntry> },
    Snapshot(SnapshotNode),
    Commit(CommitNode),
}

impl View for Node {
    type V = NodeView;

    open spec fn view(&self) -> NodeView {
        match *self {
            Node::Content(content) => NodeView::Content(content.bytes@),
            Node::ZeroRun(run) => NodeView::ZeroRun(run.len),
            Node::RangeMap(map) => NodeView::RangeMap {
                level: map.level,
                children: map.children@,
            },
            Node::Snapshot(snapshot) => NodeView::Snapshot(snapshot),
            Node::Commit(commit) => NodeView::Commit(commit),
        }
    }
}

impl NodeView {
    pub open spec fn kind(self) -> NodeKind {
        match self {
            NodeView::Content(_) => NodeKind::Content,
            NodeView::ZeroRun(_) => NodeKind::ZeroRun,
            NodeView::RangeMap { .. } => NodeKind::RangeMap,
            NodeView::Snapshot(_) => NodeKind::Snapshot,
            NodeView::Commit(_) => NodeKind::Commit,
        }
    }

    /// The canonical encoding of the node, its kind left out.
    pub open spec fn payload(self) -> Seq<u8> {
        match self {
            NodeView::Content(bytes) => le_bytes(bytes.len(), 8) + bytes,
            NodeView::ZeroRun(len) => le_bytes(len as nat, 8),
            NodeView::RangeMap { level, children } => map_header(level, children.len())
                + entries_bytes(children),
            NodeView::Snapshot(snapshot) => le_bytes(snapshot.logical_size as nat, 8)
                + snapshot.range_map_root@ + snapshot.content_digest@,
            NodeView::Commit(commit) => commit.snapshot@ + parent_bytes(commit.parent),
        }
    }

    /// Why the node has no encoding, if it has none.
    pub open spec fn problem(self) -> Option<DagError> {
        match self {
            NodeView::Content(bytes) => if bytes.len() > MAX_CONTENT_NODE_PAYLOAD {
                Some(DagError::ResourceLimit("Content node payload"))
            } else {
                None
            },
            NodeView::ZeroRun(len) => if len > MAX_LOGICAL_FILE_SIZE {
                Some(DagError::ResourceLimit("ZeroRun length"))
            } else {
                None
            },
            NodeView::RangeMap { level, children } => shape_problem(level, heads_of(children)),
            NodeView::Snapshot(snapshot) => if snapshot.logical_size > MAX_LOGICAL_FILE_SIZE {
                Some(DagError::ResourceLimit("Snapshot logical size"))
            } else {
                None
            },
            NodeView::Commit(_) => None,
        }
    }

    /// The bytes of the node's identifier.
    pub open spec fn digest(self) -> Seq<u8> {
        node_digest(self.kind(), self.payload())
    }
}

/// The level, the leaf flag and the number of entries of a range map.
pub open spec fn map_header(level: u8, count: nat) -> Seq<u8> {
    seq![
        level,
        if level == 0 {
            1u8
        } else {
            0u8
        },
    ] + le_bytes(count, 4)
}

pub open spec fn parent_bytes(parent: Option<NodeId>) -> Seq<u8> {
    match parent {
        None => seq![0u8],
        Some(id) => seq![1u8] + id@,
    }
}

pub open spec fn entry_bytes(entry: RangeMapEntry) -> Seq<u8> {
    le_bytes(entry.logical_start as nat, 8) + le_bytes(entry.logical_len as nat, 8) + le_bytes(
        entry.content_offset as nat,
        8,
    ) + le_bytes(entry.child_kind.number() as nat, 2) + entry.child@
}

/// The encodings of the entries one after the other.
pub open spec fn entries_bytes(entries: Seq<RangeMapEntry>) -> Seq<u8>
    decreases entries.len(),
{
    if entries.len() == 0 {
        Seq::empty()
    } else {
        entries_bytes(entries.drop_last()) + entry_bytes(entries.last())
    }
}

/// The identifier of a node with the given kind and payload.
pub open spec fn payload_id(kind: NodeKind, payload: Seq<u8>) -> NodeId {
    blake3_digest(
        "cairn/node/v3".spec_bytes() + le_bytes(kind.number() as nat, 2) + le_bytes(
            payload.len(),
            8,
        ) + payload,
    )
}

/// The bytes of the identifier.
pub open spec fn node_digest(kind: NodeKind, payload: Seq<u8>) -> Seq<u8> {
    payload_id(kind, payload)@
}

/// The digest of a file's logical contents.
pub open spec fn content_id(bytes: Seq<u8>) -> NodeId {
    blake3_digest("cairn/logical-bytes/v1".spec_bytes() + bytes)
}

/// The bytes of that digest.
pub open spec fn logical_digest(bytes: Seq<u8>) -> Seq<u8> {
    content_id(bytes)@
}

/// What an entry says of its run, its child aside.
pub struct EntryHead {
    pub start: u64,
    pub len: u64,
    pub offset: u64,
    pub kind: NodeKind,
}

pub open spec fn head_of(entry: RangeMapEntry) -> EntryHead {
    EntryHead {
        start: entry.logical_start,
        len: entry.logical_len,
        offset: entry.content_offset,
        kind: entry.child_kind,
    }
}

pub open spec fn heads_of(entries: Seq<RangeMapEntry>) -> Seq<EntryHead> {
    Seq::new(entries.len(), |i: int| head_of(entries[i]))
}

/// Whether an entry of a map at `level` may have a child of the given kind there.
pub open spec fn child_allowed(level: u8, head: EntryHead) -> bool {
    if level == 0 {
        head.kind is Content || (head.kind is ZeroRun && head.offset == 0)
    } else {
        head.kind is RangeMap && head.offset == 0
    }
}

/// What is wrong with entry `i`, if anything.
pub open spec fn entry_problem(level: u8, heads: Seq<EntryHead>, i: int) -> Option<DagError> {
    let head = heads[i];
    if head.len == 0 || (i > 0 && head.start != heads[i - 1].start + heads[i - 1].len) {
        Some(
            DagError::InvalidPayload("RangeMap entries must be contiguous, sorted, and non-zero"),
        )
    } else if head.start + head.len > u64::MAX {
        Some(DagError::ArithmeticOverflow)
    } else if !child_allowed(level, head) {
        Some(DagError::InvalidPayload("RangeMap child kind or offset"))
    } else {
        None
    }
}

/// What is wrong with the shape of a range map, if anything.
pub open spec fn shape_problem(level: u8, heads: Seq<EntryHead>) -> Option<DagError> {
    if level > MAX_LEVEL || heads.len() > MAX_CHILDREN {
        Some(DagError::InvalidPayload("RangeMap bounds"))
    } else if heads.len() == 0 && level != 0 {
        Some(DagError::InvalidPayload("only level-zero map may be empty"))
    } else {
        first_some(|i: int| entry_problem(level, heads, i), 0, heads.len() as int)
    }
}

/// What a range map's entries are like when its shape is right.
pub proof fn lemma_well_shaped(level: u8, children: Seq<RangeMapEntry>)
    requires
        shape_problem(level, heads_of(children)) is None,
    ensures
        level <= MAX_LEVEL,
        children.len() <= MAX_CHILDREN,
        children.len() == 0 ==> level == 0,
        forall|i: int|
            0 <= i < children.len() ==> (#[trigger] children[i]).logical_len > 0
                && children[i].logical_start + children[i].logical_len <= u64::MAX
                && child_allowed(level, head_of(children[i])),
        forall|i: int, j: int|
            #![trigger children[i], children[j]]
            0 <= i && j == i + 1 && j < children.len() ==> children[j].logical_start
                == children[i].logical_start + children[i].logical_len,
{
    let heads = heads_of(children);
    let find = |i: int| entry_problem(level, heads, i);
    assert forall|i: int| 0 <= i < children.len() implies (#[trigger] children[i]).logical_len > 0
        && children[i].logical_start + children[i].logical_len <= u64::MAX && child_allowed(
        level,
        head_of(children[i]),
    ) by {
        lemma_first_none(find, 0, heads.len() as int, i);
        assert(find(i) is None);
        assert(heads[i] == head_of(children[i]));
    }
    assert forall|i: int, j: int|
        #![trigger children[i], children[j]]
        0 <= i && j == i + 1 && j < children.len() implies children[j].logical_start
        == children[i].logical_start + children[i].logical_len by {
        lemma_first_none(find, 0, heads.len() as int, j);
        assert(find(j) is None);
        assert(heads[i] == head_of(children[i]) && heads[j] == head_of(children[j]));
        assert(heads[j - 1] == heads[i]);
    }
}

/// The start and the length of the run that a map's entries cover.
pub open spec fn span_of(children: Seq<RangeMapEntry>) -> Option<(u64, u64)> {
    if children.len() == 0 || children.last().logical_start + children.last().logical_len
        > u64::MAX {
        None
    } else {
        Some(
            (
                children[0].logical_start,
                (children.last().logical_start + children.last().logical_len
                    - children[0].logical_start) as u64,
            ),
        )
    }
}

/// The head of entry `i` in an encoded range map.
pub open spec fn encoded_kind(payload: Seq<u8>, i: int) -> nat {
    le_value(payload.subrange(6 + 58 * i + 24, 6 + 58 * i + 26))
}

pub open spec fn encoded_head(payload: Seq<u8>, i: int) -> EntryHead {
    let at = 6 + 58 * i;
    EntryHead {
        start: le_value(payload.subrange(at, at + 8)) as u64,
        len: le_value(payload.subrange(at + 8, at + 16)) as u64,
        offset: le_value(payload.subrange(at + 16, at + 24)) as u64,
        kind: kind_numbered(encoded_kind(payload, i))->0,
    }
}

/// Why entry `i` cannot be decoded, if it cannot.
pub open spec fn encoded_kind_problem(payload: Seq<u8>, i: int) -> Option<DagError> {
    if kind_numbered(encoded_kind(payload, i)) is None {
        Some(DagError::InvalidKind(encoded_kind(payload, i) as u16))
    } else {
        None
    }
}

/// Why a byte string encodes no node of the given kind, if it encodes none.
pub open spec fn decode_problem(kind: NodeKind, payload: Seq<u8>) -> Option<DagError> {
    match kind {
        NodeKind::Content => {
            let len = le_value(payload.subrange(0, 8));
            if payload.len() < 8 {
                Some(DagError::InvalidPayload("truncated integer"))
            } else if len > usize::MAX {
                Some(DagError::ArithmeticOverflow)
            } else if len > MAX_CONTENT_NODE_PAYLOAD {
                Some(DagError::ResourceLimit("Content node payload"))
            } else if 8 + len != payload.len() {
                Some(DagError::InvalidPayload("Content length or trailing bytes"))
            } else {
                None
            }
        },
        NodeKind::ZeroRun => if payload.len() != 8 {
            Some(DagError::InvalidPayload("ZeroRun payload length"))
        } else if le_value(payload) > MAX_LOGICAL_FILE_SIZE {
            Some(DagError::ResourceLimit("ZeroRun length"))
        } else {
            None
        },
        NodeKind::RangeMap => {
            let count = le_value(payload.subrange(2, 6));
            if payload.len() < 6 {
                Some(DagError::InvalidPayload("RangeMap header"))
            } else if payload[0] > MAX_LEVEL || payload[1] != (if payload[0] == 0 {
                1u8
            } else {
                0u8
            }) {
                Some(DagError::InvalidPayload("RangeMap level/leaf flag"))
            } else if count > MAX_CHILDREN || payload.len() != 6 + count * 58 {
                Some(DagError::InvalidPayload("RangeMap child count or length"))
            } else {
                let kinds = first_some(
                    |i: int| encoded_kind_problem(payload, i),
                    0,
                    count as int,
                );
                if kinds is Some {
                    kinds
                } else {
                    shape_problem(
                        payload[0],
                        Seq::new(count, |i: int| encoded_head(payload, i)),
                    )
                }
            }
        },
        NodeKind::Snapshot => if payload.len() != 72 {
            Some(DagError::InvalidPayload("Snapshot payload length"))
        } else if le_value(payload.subrange(0, 8)) > MAX_LOGICAL_FILE_SIZE {
            Some(DagError::ResourceLimit("Snapshot logical size"))
        } else {
            None
        },
        NodeKind::Commit => if payload.len() != 33 && payload.len() != 65 {
            Some(DagError::InvalidPayload("Commit payload length"))
        } else if !(payload[32] == 0 && payload.len() == 33) && !(payload[32] == 1
            && payload.len() == 65) {
            Some(DagError::InvalidPayload("Commit parent_present must be 0 or 1"))
        } else {
            None
        },
    }
}

/// Copies a list of entries.
pub fn copy_entries(entries: &Vec<RangeMapEntry>) -> (copy: Vec<RangeMapEntry>)
    ensures
        copy@ == entries@,
{
    let mut copy: Vec<RangeMapEntry> = Vec::new();
    let mut i: usize = 0;
    while i < entries.len()
        invariant
            i <= entries@.len(),
            copy@ == entries@.take(i as int),
        decreases entries@.len() - i,
    {
        copy.push(entries[i]);
        i = i + 1;
        proof {
            assert(copy@ =~= entries@.take(i as int));
        }
    }
    proof {
        assert(entries@.take(i as int) =~= entries@);
    }
    copy
}

impl Clone for Node {
    fn clone(&self) -> (copy: Self)
        ensures
            copy@ == self@,
    {
        match self {
            Node::Content(content) => {
                let bytes = copy_range(content.bytes.as_slice(), 0, content.bytes.len());
                proof {
                    assert(bytes@ =~= content.bytes@);
                }
                Node::Content(ContentNode { bytes })
            },
            Node::ZeroRun(run) => Node::ZeroRun(*run),
            Node::RangeMap(map) => Node::RangeMap(
                RangeMapNode { level: map.level, children: copy_entries(&map.children) },
            ),
            Node::Snapshot(snapshot) => Node::Snapshot(*snapshot),
            Node::Commit(commit) => Node::Commit(*commit),
        }
    }
}

/// Whether two entries are equal.
pub fn same_entry(a: &RangeMapEntry, b: &RangeMapEntry) -> (same: bool)
    ensures
        same == (*a == *b),
{
    a.logical_start == b.logical_start && a.logical_len == b.logical_len && a.content_offset
        == b.content_offset && a.child_kind == b.child_kind && same_id(&a.child, &b.child)
}

/// Whether two nodes are equal.
pub fn same_node(a: &Node, b: &Node) -> (same: bool)
    ensures
        same == (a@ == b@),
{
    match (a, b) {
        (Node::Content(x), Node::Content(y)) => same_bytes(
            x.bytes.as_slice(),
            y.bytes.as_slice(),
        ),
        (Node::ZeroRun(x), Node::ZeroRun(y)) => x.len == y.len,
        (Node::RangeMap(x), Node::RangeMap(y)) => {
            if x.level != y.level || x.children.len() != y.children.len() {
                return false;
            }
            let mut i: usize = 0;
            while i < x.children.len()
                invariant
                    i <= x.children@.len(),
                    a@ == (NodeView::RangeMap { level: x.level, children: x.children@ }),
                    b@ == (NodeView::RangeMap { level: y.level, children: y.children@ }),
                    x.level == y.level,
                    x.children@.len() == y.children@.len(),
                    forall|j: int| 0 <= j < i ==> x.children@[j] == y.children@[j],
                decreases x.children@.len() - i,
            {
                if !same_entry(&x.children[i], &y.children[i]) {
                    return false;
                }
                i = i + 1;
            }
            proof {
                assert(x.children@ =~= y.children@);
            }
            true
        },
        (Node::Snapshot(x), Node::Snapshot(y)) => x.logical_size == y.logical_size && same_id(
            &x.range_map_root,
            &y.range_map_root,
        ) && same_id(&x.content_digest, &y.content_digest),
        (Node::Commit(x), Node::Commit(y)) => same_id(&x.snapshot, &y.snapshot)
            && same_optional_id(&x.parent, &y.parent),
        _ => false,
    }
}

impl Node {
    pub fn kind(&self) -> (kind: NodeKind)
        ensures
            kind == self@.kind(),
    {
        match self {
            Node::Content(_) => NodeKind::Content,
            Node::ZeroRun(_) => NodeKind::ZeroRun,
            Node::RangeMap(_) => NodeKind::RangeMap,
            Node::Snapshot(_) => NodeKind::Snapshot,
            Node::Commit(_) => NodeKind::Commit,
        }
    }

    /// The node's identifier.
    pub fn id(&self) -> (r: Result<NodeId, DagError>)
        ensures
            match self@.problem() {
                Some(error) => r == Err::<NodeId, DagError>(error),
                None => r is Ok && r->Ok_0@ == self@.digest(),
            },
    {
        match encode_node_payload(self) {
            Ok(payload) => Ok(node_id(self.kind(), payload.as_slice())),
            Err(error) => Err(error),
        }
    }
}

/// The identifier of a node with the given kind and canonical payload.
pub fn node_id(kind: NodeKind, canonical_payload: &[u8]) -> (id: NodeId)
    ensures
        id@ == node_digest(kind, canonical_payload@),
{
    let mut prefix: Vec<u8> = Vec::new();
    push_le(&mut prefix, kind.code() as u64, 2);
    push_le(&mut prefix, canonical_payload.len() as u64, 8);
    let mut hasher = hasher_new();
    hasher_update(&mut hasher, "cairn/node/v3".as_bytes());
    hasher_update(&mut hasher, prefix.as_slice());
    hasher_update(&mut hasher, canonical_payload);
    proof {
        assert(absorbed(hasher) =~= "cairn/node/v3".spec_bytes() + le_bytes(
            kind.number() as nat,
            2,
        ) + le_bytes(canonical_payload@.len(), 8) + canonical_payload@);
    }
    hasher_finish(&hasher)
}

/// The digest of a file's logical contents.
pub fn content_digest(bytes: &[u8]) -> (digest: NodeId)
    ensures
        digest@ == logical_digest(bytes@),
{
    let mut hasher = hasher_new();
    hasher_update(&mut hasher, "cairn/logical-bytes/v1".as_bytes());
    hasher_update(&mut hasher, bytes);
    proof {
        assert(absorbed(hasher) =~= "cairn/logical-bytes/v1".spec_bytes() + bytes@);
    }
    hasher_finish(&hasher)
}

/// The canonical encoding of a node, its kind left out.
pub fn encode_node_payload(node: &Node) -> (r: Result<Vec<u8>, DagError>)
    ensures
        match node@.problem() {
            Some(error) => r == Err::<Vec<u8>, DagError>(error),
            None => r is Ok && r->Ok_0@ == node@.payload(),
        },
{
    let mut out: Vec<u8> = Vec::new();
    match node {
        Node::Content(content) => {
            if content.bytes.len() > MAX_CONTENT_NODE_PAYLOAD {
                return Err(DagError::ResourceLimit("Content node payload"));
            }
            push_le(&mut out, content.bytes.len() as u64, 8);
            push_all(&mut out, content.bytes.as_slice());
            proof {
                assert(out@ =~= node@.payload());
            }
        },
        Node::ZeroRun(run) => {
            if run.len > MAX_LOGICAL_FILE_SIZE {
                return Err(DagError::ResourceLimit("ZeroRun length"));
            }
            push_le(&mut out, run.len, 8);
            proof {
                assert(out@ =~= node@.payload());
            }
        },
        Node::RangeMap(map) => {
            match encode_range_map(map, &mut out) {
                Ok(()) => {},
                Err(error) => {
                    return Err(error);
                },
            }
            proof {
                assert(out@ =~= node@.payload());
            }
        },
        Node::Snapshot(snapshot) => {
            if snapshot.logical_size > MAX_LOGICAL_FILE_SIZE {
                return Err(DagError::ResourceLimit("Snapshot logical size"));
            }
            push_le(&mut out, snapshot.logical_size, 8);
            push_all(&mut out, snapshot.range_map_root.as_slice());
            push_all(&mut out, snapshot.content_digest.as_slice());
            proof {
                assert(out@ =~= node@.payload());
            }
        },
        Node::Commit(commit) => {
            push_all(&mut out, commit.snapshot.as_slice());
            match commit.parent {
                None => out.push(0),
                Some(parent) => {
                    out.push(1);
                    push_all(&mut out, parent.as_slice());
                },
            }
            proof {
                assert(out@ =~= node@.payload());
            }
        },
    }
    Ok(out)
}

fn push_entry(out: &mut Vec<u8>, entry: &RangeMapEntry)
    ensures
        final(out)@ == old(out)@ + entry_bytes(*entry),
{
    push_le(out, entry.logical_start, 8);
    push_le(out, entry.logical_len, 8);
    push_le(out, entry.content_offset, 8);
    push_le(out, entry.child_kind.code() as u64, 2);
    push_all(out, entry.child.as_slice());
    proof {
        assert(out@ =~= old(out)@ + entry_bytes(*entry));
    }
}

fn encode_range_map(map: &RangeMapNode, out: &mut Vec<u8>) -> (r: Result<(), DagError>)
    ensures
        match shape_problem(map.level, heads_of(map.children@)) {
            Some(error) => r == Err::<(), DagError>(error) && final(out)@ == old(out)@,
            None => r is Ok && final(out)@ == old(out)@ + map_header(
                map.level,
                map.children@.len(),
            ) + entries_bytes(map.children@),
        },
{
    match validate_map_shape(map) {
        Ok(()) => {},
        Err(error) => {
            return Err(error);
        },
    }
    let ghost start = out@;
    out.push(map.level);
    out.push(
        if map.level == 0 {
            1
        } else {
            0
        },
    );
    push_le(out, map.children.len() as u64, 4);
    let ghost header = map_header(map.level, map.children@.len());
    let mut i: usize = 0;
    proof {
        assert(map.children@.take(0) =~= Seq::empty());
        assert(out@ =~= start + header + entries_bytes(map.children@.take(0)));
    }
    while i < map.children.len()
        invariant
            i <= map.children@.len(),
            out@ == start + header + entries_bytes(map.children@.take(i as int)),
        decreases map.children@.len() - i,
    {
        push_entry(out, &map.children[i]);
        i = i + 1;
        proof {
            let done = map.children@.take(i as int);
            assert(done.drop_last() =~= map.children@.take(i - 1));
            assert(out@ =~= start + header + entries_bytes(done));
        }
    }
    proof {
        assert(map.children@.take(i as int) =~= map.children@);
    }
    Ok(())
}

/// Checks the shape of a range map.
pub fn validate_map_shape(map: &RangeMapNode) -> (r: Result<(), DagError>)
    ensures
        match shape_problem(map.level, heads_of(map.children@)) {
            Some(error) => r == Err::<(), DagError>(error),
            None => r is Ok,
        },
{
    if map.level > MAX_LEVEL || map.children.len() > MAX_CHILDREN {
        return Err(DagError::InvalidPayload("RangeMap bounds"));
    }
    if map.children.is_empty() && map.level != 0 {
        return Err(DagError::InvalidPayload("only level-zero map may be empty"));
    }
    let ghost heads = heads_of(map.children@);
    let ghost find = |i: int| entry_problem(map.level, heads, i);
    let mut previous_end: Option<u64> = None;
    let mut i: usize = 0;
    while i < map.children.len()
        invariant
            i <= map.children@.len(),
            heads == heads_of(map.children@),
            find == (|i: int| entry_problem(map.level, heads, i)),
            shape_problem(map.level, heads) == first_some(find, 0, heads.len() as int),
            forall|j: int| 0 <= j < i ==> #[trigger] find(j) is None,
            previous_end is None <==> i == 0,
            i > 0 ==> previous_end->0 == heads[i - 1].start + heads[i - 1].len,
        decreases map.children@.len() - i,
    {
        let entry = map.children[i];
        proof {
            assert(heads[i as int] == head_of(entry));
        }
        let broken = match previous_end {
            Some(end) => entry.logical_start != end,
            None => false,
        };
        if entry.logical_len == 0 || broken {
            proof {
                lemma_first_at(find, 0, i as int, heads.len() as int);
            }
            return Err(
                DagError::InvalidPayload(
                    "RangeMap entries must be contiguous, sorted, and non-zero",
                ),
            );
        }
        match entry.logical_start.checked_add(entry.logical_len) {
            Some(end) => {
                previous_end = Some(end);
            },
            None => {
                proof {
                    lemma_first_at(find, 0, i as int, heads.len() as int);
                }
                return Err(DagError::ArithmeticOverflow);
            },
        }
        let expected = if map.level == 0 {
            matches!(entry.child_kind, NodeKind::Content | NodeKind::ZeroRun)
        } else {
            entry.child_kind == NodeKind::RangeMap
        };
        if !expected || (map.level > 0 && entry.content_offset != 0) || (entry.child_kind
            == NodeKind::ZeroRun && entry.content_offset != 0) {
            proof {
                lemma_first_at(find, 0, i as int, heads.len() as int);
            }
            return Err(DagError::InvalidPayload("RangeMap child kind or offset"));
        }
        i = i + 1;
    }
    proof {
        lemma_first_clear(find, 0, heads.len() as int);
    }
    Ok(())
}

/// The start and the length of the run that a map's entries cover.
pub fn map_span(map: &RangeMapNode) -> (span: Option<(u64, u64)>)
    requires
        span_of(map.children@) matches Some(s) ==> map.children@.last().logical_start
            + map.children@.last().logical_len >= map.children@[0].logical_start,
    ensures
        span == span_of(map.children@),
{
    if map.children.is_empty() {
        return None;
    }
    let first: u64 = map.children[0].logical_start;
    let last = map.children[map.children.len() - 1];
    match last.logical_start.checked_add(last.logical_len) {
        Some(end) => Some((first, end - first)),
        None => None,
    }
}


proof fn lemma_entry_len(entry: RangeMapEntry)
    ensures
        entry_bytes(entry).len() == 58,
{
    lemma_le_bytes_len(entry.logical_start as nat, 8);
    lemma_le_bytes_len(entry.logical_len as nat, 8);
    lemma_le_bytes_len(entry.content_offset as nat, 8);
    lemma_le_bytes_len(entry.child_kind.number() as nat, 2);
}

pub proof fn lemma_entries_len(entries: Seq<RangeMapEntry>)
    ensures
        entries_bytes(entries).len() == 58 * entries.len(),
    decreases entries.len(),
{
    if entries.len() > 0 {
        lemma_entries_len(entries.drop_last());
        lemma_entry_len(entries.last());
    }
}

proof fn lemma_entry_at(entries: Seq<RangeMapEntry>, i: int)
    requires
        0 <= i < entries.len(),
    ensures
        entries_bytes(entries).len() == 58 * entries.len(),
        entries_bytes(entries).subrange(58 * i, 58 * i + 58) == entry_bytes(entries[i]),
    decreases entries.len(),
{
    lemma_entries_len(entries);
    lemma_entries_len(entries.drop_last());
    lemma_entry_len(entries.last());
    let front = entries_bytes(entries.drop_last());
    if i == entries.len() - 1 {
        assert(entries_bytes(entries).subrange(58 * i, 58 * i + 58) =~= entry_bytes(entries[i]));
    } else {
        lemma_entry_at(entries.drop_last(), i);
        assert(entries_bytes(entries).subrange(58 * i, 58 * i + 58) =~= front.subrange(
            58 * i,
            58 * i + 58,
        ));
    }
}

/// Where the parts of an encoded entry lie.
proof fn lemma_entry_parts(entry: RangeMapEntry)
    ensures
        entry_bytes(entry).len() == 58,
        entry_bytes(entry).subrange(0, 8) == le_bytes(entry.logical_start as nat, 8),
        entry_bytes(entry).subrange(8, 16) == le_bytes(entry.logical_len as nat, 8),
        entry_bytes(entry).subrange(16, 24) == le_bytes(entry.content_offset as nat, 8),
        entry_bytes(entry).subrange(24, 26) == le_bytes(entry.child_kind.number() as nat, 2),
        entry_bytes(entry).subrange(26, 58) == entry.child@,
        le_value(entry_bytes(entry).subrange(0, 8)) == entry.logical_start,
        le_value(entry_bytes(entry).subrange(8, 16)) == entry.logical_len,
        le_value(entry_bytes(entry).subrange(16, 24)) == entry.content_offset,
        le_value(entry_bytes(entry).subrange(24, 26)) == entry.child_kind.number(),
{
    lemma_pow256_values();
    lemma_le_roundtrip(entry.logical_start as nat, 8);
    lemma_le_roundtrip(entry.logical_len as nat, 8);
    lemma_le_roundtrip(entry.content_offset as nat, 8);
    lemma_le_roundtrip(entry.child_kind.number() as nat, 2);
    let all = entry_bytes(entry);
    assert(all.subrange(0, 8) =~= le_bytes(entry.logical_start as nat, 8));
    assert(all.subrange(8, 16) =~= le_bytes(entry.logical_len as nat, 8));
    assert(all.subrange(16, 24) =~= le_bytes(entry.content_offset as nat, 8));
    assert(all.subrange(24, 26) =~= le_bytes(entry.child_kind.number() as nat, 2));
    assert(all.subrange(26, 58) =~= entry.child@);
}

proof fn lemma_same_entry_bytes(a: RangeMapEntry, b: RangeMapEntry)
    requires
        entry_bytes(a) == entry_bytes(b),
    ensures
        a == b,
{
    lemma_entry_parts(a);
    lemma_entry_parts(b);
    lemma_id_view(a.child, b.child);
}

/// The payload of a range map: header, then the entries.
proof fn lemma_map_payload(level: u8, children: Seq<RangeMapEntry>)
    requires
        children.len() <= MAX_CHILDREN,
    ensures
        ({
            let payload = (NodeView::RangeMap { level, children }).payload();
            &&& payload.len() == 6 + 58 * children.len()
            &&& payload[0] == level
            &&& payload[1] == if level == 0 {
                1u8
            } else {
                0u8
            }
            &&& le_value(payload.subrange(2, 6)) == children.len()
            &&& payload.subrange(6, payload.len() as int) == entries_bytes(children)
        }),
{
    let payload = (NodeView::RangeMap { level, children }).payload();
    lemma_entries_len(children);
    lemma_pow256_values();
    lemma_le_roundtrip(children.len(), 4);
    assert(payload.subrange(2, 6) =~= le_bytes(children.len(), 4));
    assert(payload.subrange(6, payload.len() as int) =~= entries_bytes(children));
}

proof fn lemma_encoded_entry(level: u8, children: Seq<RangeMapEntry>, i: int)
    requires
        children.len() <= MAX_CHILDREN,
        0 <= i < children.len(),
    ensures
        ({
            let payload = (NodeView::RangeMap { level, children }).payload();
            &&& payload.subrange(6 + 58 * i, 6 + 58 * i + 58) == entry_bytes(children[i])
            &&& encoded_kind(payload, i) == children[i].child_kind.number()
            &&& encoded_head(payload, i) == head_of(children[i])
        }),
{
    let payload = (NodeView::RangeMap { level, children }).payload();
    lemma_map_payload(level, children);
    lemma_entry_at(children, i);
    lemma_entry_parts(children[i]);
    let entry = entry_bytes(children[i]);
    let at = 6 + 58 * i;
    assert(payload.subrange(at, at + 58) =~= entries_bytes(children).subrange(
        58 * i,
        58 * i + 58,
    ));
    assert(payload.subrange(at, at + 8) =~= entry.subrange(0, 8));
    assert(payload.subrange(at + 8, at + 16) =~= entry.subrange(8, 16));
    assert(payload.subrange(at + 16, at + 24) =~= entry.subrange(16, 24));
    assert(payload.subrange(at + 24, at + 26) =~= entry.subrange(24, 26));
}

/// No two nodes of one kind that have an encoding share it.
pub proof fn law_payload_is_canonical(a: NodeView, b: NodeView)
    requires
        a.kind() == b.kind(),
        a.problem() is None,
        b.problem() is None,
        a.payload() == b.payload(),
    ensures
        a == b,
{
    lemma_pow256_values();
    match (a, b) {
        (NodeView::Content(x), NodeView::Content(y)) => {
            lemma_le_bytes_len(x.len(), 8);
            lemma_le_bytes_len(y.len(), 8);
            assert(x =~= a.payload().skip(8));
            assert(y =~= b.payload().skip(8));
        },
        (NodeView::ZeroRun(x), NodeView::ZeroRun(y)) => {
            lemma_le_roundtrip(x as nat, 8);
            lemma_le_roundtrip(y as nat, 8);
        },
        (
            NodeView::RangeMap { level: lx, children: cx },
            NodeView::RangeMap { level: ly, children: cy },
        ) => {
            lemma_well_shaped(lx, cx);
            lemma_well_shaped(ly, cy);
            lemma_map_payload(lx, cx);
            lemma_map_payload(ly, cy);
            assert forall|i: int| 0 <= i < cx.len() implies cx[i] == cy[i] by {
                lemma_encoded_entry(lx, cx, i);
                lemma_encoded_entry(ly, cy, i);
                lemma_same_entry_bytes(cx[i], cy[i]);
            }
            assert(cx =~= cy);
        },
        (NodeView::Snapshot(x), NodeView::Snapshot(y)) => {
            lemma_le_roundtrip(x.logical_size as nat, 8);
            lemma_le_roundtrip(y.logical_size as nat, 8);
            let p = a.payload();
            assert(p.subrange(0, 8) =~= le_bytes(x.logical_size as nat, 8));
            assert(p.subrange(0, 8) =~= le_bytes(y.logical_size as nat, 8));
            assert(p.subrange(8, 40) =~= x.range_map_root@);
            assert(p.subrange(8, 40) =~= y.range_map_root@);
            assert(p.subrange(40, 72) =~= x.content_digest@);
            assert(p.subrange(40, 72) =~= y.content_digest@);
            lemma_id_view(x.range_map_root, y.range_map_root);
            lemma_id_view(x.content_digest, y.content_digest);
        },
        (NodeView::Commit(x), NodeView::Commit(y)) => {
            let p = a.payload();
            assert(p.subrange(0, 32) =~= x.snapshot@);
            assert(p.subrange(0, 32) =~= y.snapshot@);
            lemma_id_view(x.snapshot, y.snapshot);
            assert(p[32] == if x.parent is Some {
                1u8
            } else {
                0u8
            });
            assert(p[32] == if y.parent is Some {
                1u8
            } else {
                0u8
            });
            if x.parent is Some && y.parent is Some {
                assert(p.subrange(33, 65) =~= x.parent->0@);
                assert(p.subrange(33, 65) =~= y.parent->0@);
                lemma_id_view(x.parent->0, y.parent->0);
            }
        },
        _ => {},
    }
}

/// Every encoding can be decoded.
pub proof fn law_encoding_decodes(node: NodeView)
    requires
        node.problem() is None,
    ensures
        decode_problem(node.kind(), node.payload()) is None,
{
    lemma_pow256_values();
    let payload = node.payload();
    match node {
        NodeView::Content(bytes) => {
            lemma_le_roundtrip(bytes.len(), 8);
            assert(payload.subrange(0, 8) =~= le_bytes(bytes.len(), 8));
        },
        NodeView::ZeroRun(len) => {
            lemma_le_roundtrip(len as nat, 8);
        },
        NodeView::RangeMap { level, children } => {
            lemma_well_shaped(level, children);
            lemma_map_payload(level, children);
            let find = |i: int| encoded_kind_problem(payload, i);
            assert forall|i: int| 0 <= i < children.len() implies #[trigger] find(i) is None by {
                lemma_encoded_entry(level, children, i);
            }
            lemma_first_clear(find, 0, children.len() as int);
            assert forall|i: int| 0 <= i < children.len() implies encoded_head(payload, i)
                == heads_of(children)[i] by {
                lemma_encoded_entry(level, children, i);
            }
            assert(Seq::new(children.len(), |i: int| encoded_head(payload, i)) =~= heads_of(
                children,
            ));
        },
        NodeView::Snapshot(snapshot) => {
            lemma_le_roundtrip(snapshot.logical_size as nat, 8);
            assert(payload.subrange(0, 8) =~= le_bytes(snapshot.logical_size as nat, 8));
        },
        NodeView::Commit(commit) => {
            assert(payload[32] == if commit.parent is Some {
                1u8
            } else {
                0u8
            });
        },
    }
}

/// The node that a byte string encodes. Exactly the encodings of nodes that have
/// one are decoded, each to the one node that it encodes.
pub fn decode_node(kind: NodeKind, payload: &[u8]) -> (r: Result<Node, DagError>)
    ensures
        match decode_problem(kind, payload@) {
            Some(error) => r == Err::<Node, DagError>(error),
            None => r is Ok && r->Ok_0@.kind() == kind && r->Ok_0@.problem() is None
                && r->Ok_0@.payload() == payload@,
        },
{
    let size: usize = payload.len();
    match kind {
        NodeKind::Content => {
            let len: u64 = match read_u64(payload, 0) {
                Ok(len) => len,
                Err(error) => {
                    return Err(error);
                },
            };
            if len > usize::MAX as u64 {
                return Err(DagError::ArithmeticOverflow);
            }
            let len: usize = len as usize;
            if len > MAX_CONTENT_NODE_PAYLOAD {
                return Err(DagError::ResourceLimit("Content node payload"));
            }
            if size < 8 || size - 8 != len {
                return Err(DagError::InvalidPayload("Content length or trailing bytes"));
            }
            let bytes = copy_range(payload, 8, size);
            proof {
                lemma_le_canonical(payload@.subrange(0, 8));
                assert(le_bytes(bytes@.len(), 8) + bytes@ =~= payload@);
            }
            Ok(Node::Content(ContentNode { bytes }))
        },
        NodeKind::ZeroRun => {
            if size != 8 {
                return Err(DagError::InvalidPayload("ZeroRun payload length"));
            }
            let len: u64 = read_le(payload, 0, 8);
            proof {
                assert(payload@.subrange(0, 8) =~= payload@);
                lemma_le_canonical(payload@);
            }
            if len > MAX_LOGICAL_FILE_SIZE {
                return Err(DagError::ResourceLimit("ZeroRun length"));
            }
            Ok(Node::ZeroRun(ZeroRunNode { len }))
        },
        NodeKind::RangeMap => match decode_range_map(payload) {
            Ok(map) => Ok(Node::RangeMap(map)),
            Err(error) => Err(error),
        },
        NodeKind::Snapshot => {
            if size != 72 {
                return Err(DagError::InvalidPayload("Snapshot payload length"));
            }
            let logical_size: u64 = read_le(payload, 0, 8);
            if logical_size > MAX_LOGICAL_FILE_SIZE {
                return Err(DagError::ResourceLimit("Snapshot logical size"));
            }
            let range_map_root = id_at(payload, 8);
            let content_digest = id_at(payload, 40);
            proof {
                lemma_le_canonical(payload@.subrange(0, 8));
                assert(le_bytes(logical_size as nat, 8) + range_map_root@ + content_digest@
                    =~= payload@);
            }
            Ok(Node::Snapshot(SnapshotNode { logical_size, range_map_root, content_digest }))
        },
        NodeKind::Commit => {
            if size != 33 && size != 65 {
                return Err(DagError::InvalidPayload("Commit payload length"));
            }
            let snapshot = id_at(payload, 0);
            let parent = if payload[32] == 0 && size == 33 {
                None
            } else if payload[32] == 1 && size == 65 {
                Some(id_at(payload, 33))
            } else {
                return Err(DagError::InvalidPayload("Commit parent_present must be 0 or 1"));
            };
            proof {
                assert(snapshot@ + parent_bytes(parent) =~= payload@);
            }
            Ok(Node::Commit(CommitNode { snapshot, parent }))
        },
    }
}

fn decode_entry(payload: &[u8], at: usize, kind: NodeKind) -> (entry: RangeMapEntry)
    requires
        at + 58 <= payload@.len(),
        le_value(payload@.subrange(at + 24, at + 26)) == kind.number(),
    ensures
        entry_bytes(entry) == payload@.subrange(at as int, at + 58),
        entry.child_kind == kind,
        entry.logical_start == le_value(payload@.subrange(at as int, at + 8)),
        entry.logical_len == le_value(payload@.subrange(at + 8, at + 16)),
        entry.content_offset == le_value(payload@.subrange(at + 16, at + 24)),
{
    let total: usize = payload.len();
    let entry = RangeMapEntry {
        logical_start: read_le(payload, at, 8),
        logical_len: read_le(payload, at + 8, 8),
        content_offset: read_le(payload, at + 16, 8),
        child_kind: kind,
        child: id_at(payload, at + 26),
    };
    proof {
        let p = payload@;
        lemma_le_canonical(p.subrange(at as int, at + 8));
        lemma_le_canonical(p.subrange(at + 8, at + 16));
        lemma_le_canonical(p.subrange(at + 16, at + 24));
        lemma_le_canonical(p.subrange(at + 24, at + 26));
        assert(entry_bytes(entry) =~= p.subrange(at as int, at + 58));
    }
    entry
}

#[verifier::spinoff_prover]
fn decode_range_map(payload: &[u8]) -> (r: Result<RangeMapNode, DagError>)
    ensures
        match decode_problem(NodeKind::RangeMap, payload@) {
            Some(error) => r == Err::<RangeMapNode, DagError>(error),
            None => r is Ok && shape_problem(r->Ok_0.level, heads_of(r->Ok_0.children@)) is None
                && (NodeView::RangeMap {
                level: r->Ok_0.level,
                children: r->Ok_0.children@,
            }).payload() == payload@,
        },
{
    let size: usize = payload.len();
    if size < 6 {
        return Err(DagError::InvalidPayload("RangeMap header"));
    }
    let level: u8 = payload[0];
    let leaf: u8 = if level == 0 {
        1
    } else {
        0
    };
    if level > MAX_LEVEL || payload[1] != leaf {
        return Err(DagError::InvalidPayload("RangeMap level/leaf flag"));
    }
    proof {
        lemma_pow256_values();
    }
    let count: usize = read_le(payload, 2, 4) as usize;
    if count > MAX_CHILDREN || size != 6 + count * 58 {
        return Err(DagError::InvalidPayload("RangeMap child count or length"));
    }
    let ghost find = |i: int| encoded_kind_problem(payload@, i);
    let ghost body = payload@.subrange(6, payload@.len() as int);
    let mut children: Vec<RangeMapEntry> = Vec::with_capacity(count);
    let mut index: usize = 0;
    proof {
        assert(body.take(0) =~= Seq::empty());
    }
    while index < count
        invariant
            index <= count,
            count <= MAX_CHILDREN,
            size == payload@.len(),
            size == 6 + count * 58,
            count == le_value(payload@.subrange(2, 6)),
            payload@[0] == level,
            level <= MAX_LEVEL,
            payload@[1] == (if level == 0 {
                1u8
            } else {
                0u8
            }),
            find == (|i: int| encoded_kind_problem(payload@, i)),
            body == payload@.subrange(6, payload@.len() as int),
            children@.len() == index,
            entries_bytes(children@) == body.take(58 * index),
            forall|j: int| 0 <= j < index ==> #[trigger] find(j) is None,
            forall|j: int|
                0 <= j < index ==> head_of(#[trigger] children@[j]) == encoded_head(payload@, j),
        decreases count - index,
    {
        let at: usize = 6 + index * 58;
        proof {
            lemma_le_value_bound(payload@.subrange(at + 24, at + 26));
            lemma_pow256_values();
            assert(payload@.subrange(at + 24, at + 26).len() == 2);
        }
        let code: u16 = read_le(payload, at + 24, 2) as u16;
        let kind = match NodeKind::from_code(code) {
            Ok(kind) => kind,
            Err(error) => {
                proof {
                    assert(find(index as int) == Some(error));
                    lemma_first_at(find, 0, index as int, count as int);
                }
                return Err(error);
            },
        };
        let entry = decode_entry(payload, at, kind);
        let ghost before = children@;
        children.push(entry);
        proof {
            assert(children@.drop_last() =~= before);
            assert(entry_bytes(entry) == body.subrange(58 * index, 58 * index + 58)) by {
                assert(body.subrange(58 * index, 58 * index + 58) =~= payload@.subrange(
                    at as int,
                    at + 58,
                ));
            }
            assert(body.take(58 * (index + 1)) =~= body.take(58 * index) + body.subrange(
                58 * index,
                58 * index + 58,
            ));
            assert(find(index as int) is None);
            assert(head_of(entry) == encoded_head(payload@, index as int));
        }
        index = index + 1;
    }
    proof {
        lemma_first_clear(find, 0, count as int);
        assert(heads_of(children@) =~= Seq::new(
            count as nat,
            |i: int| encoded_head(payload@, i),
        ));
        assert(body.take(58 * count) =~= body);
        lemma_le_canonical(payload@.subrange(2, 6));
        assert(map_header(level, count as nat) + body =~= payload@);
    }
    let map = RangeMapNode { level, children };
    match validate_map_shape(&map) {
        Ok(()) => Ok(map),
        Err(error) => Err(error),
    }
}

/// Reads a 64-bit integer that starts at `at`.
fn read_u64(bytes: &[u8], at: usize) -> (r: Result<u64, DagError>)
    requires
        at + 8 <= usize::MAX,
    ensures
        r == if at + 8 <= bytes@.len() {
            Ok::<u64, DagError>(le_value(bytes@.subrange(at as int, at + 8)) as u64)
        } else {
            Err(DagError::InvalidPayload("truncated integer"))
        },
        at + 8 <= bytes@.len() ==> le_value(bytes@.subrange(at as int, at + 8)) <= u64::MAX,
{
    if at + 8 > bytes.len() {
        return Err(DagError::InvalidPayload("truncated integer"));
    }
    Ok(read_le(bytes, at, 8))
}

} // verus!
