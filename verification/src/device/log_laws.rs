//! What scanning the record log keeps.
use vstd::prelude::*;

use crate::bytes::{
    le_bytes, le_value, lemma_le_bytes_len, lemma_le_roundtrip, lemma_pow256_values, lemma_id_view,
    splice, zeros,
};
use crate::catalog::graph::id_of;
use crate::catalog::ids::{CommitId, NodeId};
use crate::catalog::node::{law_encoding_decodes, NodeView};
use crate::device::block::between;
use crate::device::log::{
    binding_payload, bound_commit, bound_operation, code_at, commit_problem, empty_log,
    footer_magic, footer_result, footer_tail, kind_result, lemma_decoded, lemma_kind_code,
    lemma_magic_len, len_at, node_result, payload_at, record_bytes, record_checksum, record_cut,
    record_header, record_span, scan, with_payload, with_record, with_tail, FileDagStoreError,
    LogView, RecordKind, MAX_RECORD_PAYLOAD,
};

verus! {

/// Every node's record lies wholly before the end of the log.
pub open spec fn filed(contents: Seq<u8>, log: LogView) -> bool {
    &&& log.next <= contents.len()
    &&& forall|id: NodeId| #[trigger]
        log.nodes.dom().contains(id) ==> log.nodes[id] + 38 <= log.next && log.nodes[id]
            + record_span(len_at(contents, log.nodes[id] as int)) <= log.next
}

/// The two agree on the first `n` bytes.
pub open spec fn same_front(a: Seq<u8>, b: Seq<u8>, n: int) -> bool {
    &&& a.len() == b.len()
    &&& n <= a.len()
    &&& forall|i: int| 0 <= i < n ==> a[i] == b[i]
}

/// Nothing stands behind the end of the log.
pub open spec fn clear_tail(contents: Seq<u8>, log: LogView) -> bool {
    forall|i: int| log.next <= i < contents.len() ==> contents[i] == 0
}

/// The index is what a scan would find, and nothing stands behind the log.
pub open spec fn settled(contents: Seq<u8>, log: LogView) -> bool {
    &&& scan(contents) == Ok::<LogView, FileDagStoreError>(log)
    &&& clear_tail(contents, log)
}

proof fn lemma_same_part(a: Seq<u8>, b: Seq<u8>, n: int, from: int, to: int)
    requires
        same_front(a, b, n),
        0 <= from <= to <= n,
    ensures
        a.subrange(from, to) == b.subrange(from, to),
{
    assert(a.subrange(from, to) =~= b.subrange(from, to));
}

proof fn lemma_same_record(a: Seq<u8>, b: Seq<u8>, n: int, at: int)
    requires
        same_front(a, b, n),
        0 <= at,
        at + 38 <= n,
        at + record_span(len_at(a, at)) <= n,
    ensures
        code_at(a, at) == code_at(b, at),
        len_at(a, at) == len_at(b, at),
        payload_at(a, at) == payload_at(b, at),
        a.subrange(at, at + 38) == b.subrange(at, at + 38),
        a.subrange(at + 6, at + 38) == b.subrange(at + 6, at + 38),
        footer_result(a, at) == footer_result(b, at),
{
    lemma_same_part(a, b, n, at, at + 2);
    lemma_same_part(a, b, n, at + 2, at + 6);
    lemma_same_part(a, b, n, at, at + 38);
    lemma_same_part(a, b, n, at + 6, at + 38);
    let len = len_at(a, at);
    lemma_same_part(a, b, n, at + 38, at + 38 + len);
    lemma_same_part(a, b, n, at + 38 + len, at + 38 + len + 8);
    lemma_same_part(a, b, n, at + 38 + len + 8, at + 38 + len + 48);
}

proof fn lemma_same_node(a: Seq<u8>, b: Seq<u8>, log: LogView, id: NodeId)
    requires
        filed(a, log),
        same_front(a, b, log.next as int),
        log.nodes.dom().contains(id),
    ensures
        node_result(a, log.nodes, log.nodes[id]) == node_result(b, log.nodes, log.nodes[id]),
{
    lemma_same_record(a, b, log.next as int, log.nodes[id] as int);
}

pub proof fn lemma_same_commit(a: Seq<u8>, b: Seq<u8>, log: LogView, commit: CommitId)
    requires
        filed(a, log),
        same_front(a, b, log.next as int),
    ensures
        commit_problem(a, log.nodes, commit) == commit_problem(b, log.nodes, commit),
{
    if log.nodes.dom().contains(commit) {
        lemma_same_node(a, b, log, commit);
    }
}

proof fn lemma_step_filed(contents: Seq<u8>, log: LogView)
    requires
        contents.len() <= u64::MAX,
        filed(contents, log),
        log.scan_step(contents) matches Ok(Some(_)),
    ensures
        log.scan_step(contents) matches Ok(Some(after)) && filed(contents, after) && after.next
            == log.next + record_span(len_at(contents, log.next as int)) && after.next
            > log.next,
{
    if let Ok(Some(after)) = log.scan_step(contents) {
        assert forall|id: NodeId| #[trigger] after.nodes.dom().contains(id) implies after.nodes[id]
            + 38 <= after.next && after.nodes[id] + record_span(
            len_at(contents, after.nodes[id] as int),
        ) <= after.next by {
            if after.nodes[id] != log.next {
                assert(log.nodes.dom().contains(id));
            }
        }
    }
}

/// A scan ends at or after where it starts, with every record it found filed.
pub proof fn lemma_scanned_filed(contents: Seq<u8>, log: LogView, end: LogView)
    requires
        contents.len() <= u64::MAX,
        filed(contents, log),
        log.scanned(contents) == Ok::<LogView, FileDagStoreError>(end),
    ensures
        filed(contents, end),
        end.next >= log.next,
        end.scan_step(contents) == Ok::<Option<LogView>, FileDagStoreError>(None),
    decreases contents.len() - log.next,
{
    if let Ok(Some(after)) = log.scan_step(contents) {
        lemma_step_filed(contents, log);
        lemma_scanned_filed(contents, after, end);
    }
}

proof fn lemma_same_indexed(
    a: Seq<u8>,
    b: Seq<u8>,
    log: LogView,
    kind: RecordKind,
    payload: Seq<u8>,
)
    requires
        filed(a, log),
        same_front(a, b, log.next as int),
    ensures
        log.indexed(a, kind, payload) == log.indexed(b, kind, payload),
{
    lemma_same_commit(a, b, log, bound_commit(payload));
}

/// A scan goes the same way over bytes that agree up to where it ended.
pub proof fn lemma_scan_front(a: Seq<u8>, b: Seq<u8>, log: LogView, end: LogView)
    requires
        a.len() <= u64::MAX,
        filed(a, log),
        log.scanned(a) == Ok::<LogView, FileDagStoreError>(end),
        same_front(a, b, end.next as int),
    ensures
        log.scanned(b) == end.scanned(b),
    decreases a.len() - log.next,
{
    lemma_scanned_filed(a, log, end);
    if let Ok(Some(after)) = log.scan_step(a) {
        lemma_step_filed(a, log);
        lemma_scanned_filed(a, after, end);
        lemma_same_record(a, b, end.next as int, log.next as int);
        let code = code_at(a, log.next as int);
        let payload = payload_at(a, log.next as int);
        assert(same_front(a, b, log.next as int));
        lemma_same_indexed(a, b, log, kind_result(code)->Ok_0, payload);
        assert(log.scan_step(b) == log.scan_step(a));
        lemma_scan_front(a, b, after, end);
    }
}

/// The parts of a finished record that was written at `at`.
pub proof fn lemma_record_parts(
    contents: Seq<u8>,
    at: int,
    code: u16,
    payload: Seq<u8>,
)
    requires
        0 <= at,
        at + record_span(payload.len()) <= contents.len(),
        payload.len() <= MAX_RECORD_PAYLOAD,
    ensures
        ({
            let after = splice(contents, at, record_bytes(code, payload));
            &&& record_bytes(code, payload).len() == record_span(payload.len())
            &&& after.len() == contents.len()
            &&& same_front(contents, after, at)
            &&& code_at(after, at) == code
            &&& len_at(after, at) == payload.len()
            &&& payload_at(after, at) == payload
            &&& after.subrange(at + 6, at + 38) == record_checksum(code, payload)
            &&& footer_result(after, at) == Ok::<bool, FileDagStoreError>(true)
            &&& after.subrange(at, at + 38) == record_header(code, payload)
        }),
{
    let record = record_bytes(code, payload);
    let after = splice(contents, at, record);
    lemma_pow256_values();
    lemma_le_roundtrip(code as nat, 2);
    lemma_le_roundtrip(payload.len(), 4);
    lemma_le_bytes_len(payload.len(), 8);
    lemma_magic_len();
    let n = payload.len() as int;
    assert(record.len() == 86 + n);
    assert(after.subrange(at, at + record.len()) =~= record);
    assert(record.subrange(0, 2) =~= le_bytes(code as nat, 2));
    assert(record.subrange(2, 6) =~= le_bytes(payload.len(), 4));
    assert(record.subrange(6, 38) =~= record_checksum(code, payload));
    assert(record.subrange(0, 38) =~= record_header(code, payload));
    assert(record.subrange(38, 38 + n) =~= payload);
    assert(record.subrange(38 + n, 46 + n) =~= footer_magic());
    assert(record.subrange(46 + n, 86 + n) =~= footer_tail(code, payload));
    assert(after.subrange(at, at + 2) =~= record.subrange(0, 2));
    assert(after.subrange(at + 2, at + 6) =~= record.subrange(2, 6));
    assert(after.subrange(at + 6, at + 38) =~= record.subrange(6, 38));
    assert(after.subrange(at, at + 38) =~= record.subrange(0, 38));
    assert(after.subrange(at + 38, at + 38 + n) =~= record.subrange(38, 38 + n));
    assert(after.subrange(at + 38 + n, at + 38 + n + 8) =~= record.subrange(38 + n, 46 + n));
    assert(after.subrange(at + 38 + n + 8, at + 38 + n + 48) =~= record.subrange(
        46 + n,
        86 + n,
    ));
}

/// A finished record at the end of a settled log is found by the next scan, and
/// nothing else changes.
pub proof fn law_appended_record_is_scanned(
    contents: Seq<u8>,
    log: LogView,
    kind: RecordKind,
    payload: Seq<u8>,
    indexed: LogView,
)
    requires
        contents.len() <= u64::MAX,
        settled(contents, log),
        log.next + record_span(payload.len()) <= contents.len(),
        0 < payload.len() <= MAX_RECORD_PAYLOAD,
        log.indexed(contents, kind, payload) == Ok::<LogView, FileDagStoreError>(indexed),
    ensures
        settled(
            splice(contents, log.next as int, record_bytes(kind.number(), payload)),
            LogView { next: (log.next + record_span(payload.len())) as u64, ..indexed },
        ),
{
    let at = log.next as int;
    let code = kind.number();
    let after = splice(contents, at, record_bytes(code, payload));
    let grown = LogView { next: (log.next + record_span(payload.len())) as u64, ..indexed };
    assert(filed(contents, empty_log()));
    lemma_scanned_filed(contents, empty_log(), log);
    lemma_record_parts(contents, at, code, payload);
    lemma_kind_code(kind);
    lemma_scan_front(contents, after, empty_log(), log);
    lemma_same_indexed(contents, after, log, kind, payload);
    assert(after.subrange(at, at + 38) != zeros(38)) by {
        lemma_pow256_values();
        lemma_le_roundtrip(code as nat, 2);
        if after.subrange(at, at + 38) == zeros(38) {
            assert(after.subrange(at, at + 2) =~= zeros(38).subrange(0, 2));
            assert(after.subrange(at, at + 2) =~= after.subrange(at, at + 38).subrange(0, 2));
            assert(zeros(38).subrange(0, 2) =~= seq![0u8, 0u8]);
            reveal_with_fuel(le_value, 3);
            assert(le_value(seq![0u8, 0u8]) == 0) by {
                assert(seq![0u8, 0u8].drop_first() =~= seq![0u8]);
                assert(seq![0u8].drop_first() =~= Seq::<u8>::empty());
            }
        }
    }
    assert(log.scan_step(after) == Ok::<Option<LogView>, FileDagStoreError>(Some(grown)));
    assert(log.scanned(after) == grown.scanned(after));
    assert(clear_tail(after, grown));
    assert(grown.scan_step(after) == Ok::<Option<LogView>, FileDagStoreError>(None)) by {
        let end = grown.next as int;
        if end + 38 <= after.len() {
            assert(after.subrange(end, end + 38) =~= zeros(38));
        }
    }
}

/// A record whose footer magic is missing ends the log, whatever else was written:
/// an append that was cut short leaves the records before it as they were.
pub proof fn law_unfinished_record_ends_log(contents: Seq<u8>, log: LogView)
    requires
        contents.len() <= u64::MAX,
        log.next + 38 <= contents.len(),
        0 < len_at(contents, log.next as int) <= MAX_RECORD_PAYLOAD,
        log.next + record_span(len_at(contents, log.next as int)) <= contents.len() ==> contents.subrange(
            log.next + 38 + len_at(contents, log.next as int),
            log.next + 46 + len_at(contents, log.next as int),
        ) != footer_magic(),
    ensures
        log.scanned(contents) == Ok::<LogView, FileDagStoreError>(log),
{
}

/// An append that is cut short leaves the log before it alone.
pub proof fn lemma_cut_front(
    contents: Seq<u8>,
    at: int,
    code: u16,
    payload: Seq<u8>,
    left: Seq<u8>,
)
    requires
        0 <= at,
        at + record_span(payload.len()) <= contents.len(),
        record_cut(contents, at, code, payload, left) || left == with_record(
            contents,
            at,
            code,
            payload,
        ),
    ensures
        same_front(contents, left, at),
{
    let second = with_payload(contents, at, code, payload);
    let third = with_tail(contents, at, code, payload);
    let whole = with_record(contents, at, code, payload);
    lemma_magic_len();
    lemma_le_bytes_len(code as nat, 2);
    lemma_le_bytes_len(payload.len(), 4);
    lemma_le_bytes_len(payload.len(), 8);
    assert(whole.len() == contents.len());
    assert forall|i: int| 0 <= i < at implies contents[i] == left[i] by {
        assert(second[i] == contents[i]);
        assert(third[i] == contents[i]);
        assert(whole[i] == contents[i]);
    }
}

/// After an append that is cut short the footer's magic is whole only where the record is.
proof fn lemma_cut_parts(contents: Seq<u8>, at: int, code: u16, payload: Seq<u8>, left: Seq<u8>)
    requires
        0 <= at,
        at + record_span(payload.len()) <= contents.len(),
        payload.len() <= MAX_RECORD_PAYLOAD,
        forall|i: int| at <= i < contents.len() ==> contents[i] == 0,
        record_cut(contents, at, code, payload, left),
    ensures
        left.subrange(at + 38 + payload.len(), at + 46 + payload.len()) == footer_magic()
            ==> left == with_record(contents, at, code, payload),
{
    let foot = at + 38 + payload.len();
    let second = with_payload(contents, at, code, payload);
    let third = with_tail(contents, at, code, payload);
    let whole = with_record(contents, at, code, payload);
    lemma_magic_len();
    lemma_le_bytes_len(code as nat, 2);
    lemma_le_bytes_len(payload.len(), 4);
    lemma_le_bytes_len(payload.len(), 8);
    assert(second.len() == contents.len());
    assert(third.len() == contents.len());
    assert(whole.len() == contents.len());
    assert(second[foot] == 0);
    assert(third[foot] == 0);
    assert(left.subrange(foot, foot + 8)[0] == left[foot]);
    if left.subrange(foot, foot + 8) == footer_magic() {
        assert(left[foot] == 67);
        assert(between(left, third, whole));
        assert forall|i: int| 0 <= i < left.len() implies left[i] == whole[i] by {
            if foot <= i < foot + 8 {
                assert(left[i] == left.subrange(foot, foot + 8)[i - foot]);
            } else {
                assert(third[i] == whole[i]);
            }
        }
        assert(left =~= whole);
    }
}

/// A log ends before a record that has its header, or nothing of it, and no footer.
#[verifier::spinoff_prover]
proof fn lemma_cut_ends_log(left: Seq<u8>, log: LogView, code: u16, payload: Seq<u8>)
    requires
        left.len() <= u64::MAX,
        log.next + record_span(payload.len()) <= left.len(),
        0 < payload.len() <= MAX_RECORD_PAYLOAD,
        left.subrange(log.next as int, log.next + 38) == zeros(38) || left.subrange(
            log.next as int,
            log.next + 38,
        ) == record_header(code, payload),
        left.subrange(log.next + 38 + payload.len(), log.next + 46 + payload.len())
            != footer_magic(),
    ensures
        log.scanned(left) == Ok::<LogView, FileDagStoreError>(log),
{
    let at = log.next as int;
    if left.subrange(at, at + 38) != zeros(38) {
        let header = record_header(code, payload);
        lemma_pow256_values();
        lemma_le_bytes_len(code as nat, 2);
        lemma_le_roundtrip(payload.len(), 4);
        assert(header.subrange(2, 6) =~= le_bytes(payload.len(), 4));
        assert(left.subrange(at + 2, at + 6) =~= left.subrange(at, at + 38).subrange(2, 6));
        law_unfinished_record_ends_log(left, log);
    }
}

/// An append that is cut short is done wholly or not at all: what a power loss leaves of it
/// opens with the log before, or with the whole record. This leaves out a header that is
/// itself torn.
#[verifier::spinoff_prover]
pub proof fn law_interrupted_append_is_all_or_nothing(
    contents: Seq<u8>,
    log: LogView,
    kind: RecordKind,
    payload: Seq<u8>,
    indexed: LogView,
    left: Seq<u8>,
)
    requires
        contents.len() <= u64::MAX,
        settled(contents, log),
        log.next + record_span(payload.len()) <= contents.len(),
        0 < payload.len() <= MAX_RECORD_PAYLOAD,
        log.indexed(contents, kind, payload) == Ok::<LogView, FileDagStoreError>(indexed),
        record_cut(contents, log.next as int, kind.number(), payload, left),
        left.subrange(log.next as int, log.next + 38) == zeros(38) || left.subrange(
            log.next as int,
            log.next + 38,
        ) == record_header(kind.number(), payload),
    ensures
        scan(left) == Ok::<LogView, FileDagStoreError>(log) || scan(left) == Ok::<
            LogView,
            FileDagStoreError,
        >(LogView { next: (log.next + record_span(payload.len())) as u64, ..indexed }),
{
    let at = log.next as int;
    let code = kind.number();
    let foot = at + 38 + payload.len();
    lemma_cut_front(contents, at, code, payload, left);
    lemma_cut_parts(contents, at, code, payload, left);
    if left.subrange(foot, foot + 8) == footer_magic() {
        law_appended_record_is_scanned(contents, log, kind, payload, indexed);
    } else {
        assert(filed(contents, empty_log()));
        lemma_scan_front(contents, left, empty_log(), log);
        lemma_cut_ends_log(left, log, code, payload);
    }
}

/// What a node's payload says when it is read back as a record of its kind.
pub proof fn lemma_node_indexed(contents: Seq<u8>, log: LogView, node: NodeView)
    requires
        node.problem() is None,
    ensures
        log.indexed(contents, RecordKind::Node(node.kind()), node.payload()) == Ok::<
            LogView,
            FileDagStoreError,
        >(LogView { nodes: log.nodes.insert(id_of(node), log.next), ..log }),
        node.payload().len() > 0,
{
    law_encoding_decodes(node);
    lemma_decoded(node.kind(), node.payload(), node);
    match node {
        NodeView::Content(bytes) => lemma_le_bytes_len(bytes.len(), 8),
        NodeView::ZeroRun(len) => lemma_le_bytes_len(len as nat, 8),
        NodeView::Snapshot(snapshot) => lemma_le_bytes_len(snapshot.logical_size as nat, 8),
        _ => {},
    }
}

/// What a binding payload says when it is read back.
pub proof fn lemma_binding_payload(operation: u64, commit: CommitId)
    ensures
        binding_payload(operation, commit).len() == 40,
        bound_operation(binding_payload(operation, commit)) == operation,
        bound_commit(binding_payload(operation, commit)) == commit,
{
    let payload = binding_payload(operation, commit);
    lemma_pow256_values();
    lemma_le_roundtrip(operation as nat, 8);
    assert(payload.subrange(0, 8) =~= le_bytes(operation as nat, 8));
    assert(payload.subrange(8, 40) =~= commit@);
    lemma_id_view(bound_commit(payload), commit);
}

/// A node that was appended to a settled log can be looked up afterwards.
pub proof fn law_appended_node_is_found(
    contents: Seq<u8>,
    log: LogView,
    node: NodeView,
)
    requires
        contents.len() <= u64::MAX,
        filed(contents, log),
        node.problem() is None,
        log.next + record_span(node.payload().len()) <= contents.len(),
        node.payload().len() <= MAX_RECORD_PAYLOAD,
    ensures
        node_result(
            splice(
                contents,
                log.next as int,
                record_bytes(node.kind().number(), node.payload()),
            ),
            log.nodes.insert(id_of(node), log.next),
            log.next,
        ) == Ok::<NodeView, FileDagStoreError>(node),
{
    let kind = RecordKind::Node(node.kind());
    lemma_record_parts(contents, log.next as int, kind.number(), node.payload());
    lemma_kind_code(kind);
    law_encoding_decodes(node);
    lemma_decoded(node.kind(), node.payload(), node);
}


/// Appending a record leaves every node that could be looked up as it was.
pub proof fn law_append_keeps_nodes(
    contents: Seq<u8>,
    log: LogView,
    code: u16,
    payload: Seq<u8>,
    added: Option<NodeId>,
    id: NodeId,
)
    requires
        filed(contents, log),
        log.next + record_span(payload.len()) <= contents.len(),
        payload.len() <= MAX_RECORD_PAYLOAD,
        log.nodes.dom().contains(id),
        added matches Some(new) ==> !log.nodes.dom().contains(new),
    ensures
        node_result(
            splice(contents, log.next as int, record_bytes(code, payload)),
            match added {
                Some(new) => log.nodes.insert(new, log.next),
                None => log.nodes,
            },
            log.nodes[id],
        ) == node_result(contents, log.nodes, log.nodes[id]),
{
    lemma_record_parts(contents, log.next as int, code, payload);
    let after = splice(contents, log.next as int, record_bytes(code, payload));
    lemma_same_record(contents, after, log.next as int, log.nodes[id] as int);
}


pub proof fn lemma_appended_filed(
    contents: Seq<u8>,
    log: LogView,
    code: u16,
    payload: Seq<u8>,
    id: NodeId,
)
    requires
        contents.len() <= u64::MAX,
        filed(contents, log),
        log.next + record_span(payload.len()) <= contents.len(),
        payload.len() <= MAX_RECORD_PAYLOAD,
    ensures
        filed(
            splice(contents, log.next as int, record_bytes(code, payload)),
            LogView {
                next: (log.next + record_span(payload.len())) as u64,
                nodes: log.nodes.insert(id, log.next),
                ..log
            },
        ),
{
    let after = splice(contents, log.next as int, record_bytes(code, payload));
    let grown = LogView {
        next: (log.next + record_span(payload.len())) as u64,
        nodes: log.nodes.insert(id, log.next),
        ..log
    };
    lemma_record_parts(contents, log.next as int, code, payload);
    assert forall|other: NodeId| #[trigger] grown.nodes.dom().contains(other) implies grown.nodes[other]
        + 38 <= grown.next && grown.nodes[other] + record_span(
        len_at(after, grown.nodes[other] as int),
    ) <= grown.next by {
        if other != id {
            assert(log.nodes.dom().contains(other));
            lemma_same_record(contents, after, log.next as int, log.nodes[other] as int);
        }
    }
}

} // verus!
