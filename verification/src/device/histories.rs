//! What holds of the record log after any run of requests on a reliable device.
use vstd::prelude::*;

use crate::bytes::{splice, zeros};
use crate::catalog::graph::id_of;
use crate::catalog::ids::{CommitId, NodeId};
use crate::catalog::node::{NodeView, MAX_CONTENT_NODE_PAYLOAD};
use crate::device::dag_store::{
    append_problem, appended, appended_contents, keeps_nodes, lemma_append_laws, logged, LogRequest,
};
use crate::device::log::{
    binding_payload, commit_problem, empty_log, lookup, record_bytes, record_span, scan,
    FileDagStoreError, LogView, RecordKind, MAX_RECORD_PAYLOAD, MAX_SNAPSHOT_READ_BYTES,
};
use crate::device::log_laws::{
    filed, law_append_keeps_nodes, law_appended_record_is_scanned, lemma_binding_payload,
    lemma_record_parts, lemma_scanned_filed, settled,
};
use crate::device::snapshots::{
    append_all, chunk_count, finds_all, holds_snapshot, law_written_snapshot_reads_back,
    whole_commit, whole_map, whole_nodes, whole_snapshot,
};
use crate::device::walk::{read_result, source};

verus! {

/// The bytes and the index after a run of requests, whatever came of each.
pub open spec fn logged_all(contents: Seq<u8>, log: LogView, requests: Seq<LogRequest>) -> (
    Seq<u8>,
    LogView,
)
    decreases requests.len(),
{
    if requests.len() == 0 {
        (contents, log)
    } else {
        let (before, index) = logged_all(contents, log, requests.drop_last());
        let (_, after, grown) = logged(before, index, requests.last());
        (after, grown)
    }
}

/// What a run of requests gives on a blank device of the size.
pub open spec fn history(size: nat, requests: Seq<LogRequest>) -> (Seq<u8>, LogView) {
    logged_all(zeros(size), empty_log(), requests)
}

/// A blank device opens as an empty log with nothing behind it.
pub proof fn law_blank_log_is_settled(size: nat)
    requires
        size <= u64::MAX,
    ensures
        settled(zeros(size), empty_log()),
{
    let contents = zeros(size);
    if 38 <= size {
        assert(contents.subrange(0, 38) =~= zeros(38));
    }
    assert(empty_log().scan_step(contents) == Ok::<Option<LogView>, FileDagStoreError>(None));
}

/// In a settled log every node's record lies before the end.
pub proof fn law_settled_is_filed(contents: Seq<u8>, log: LogView)
    requires
        contents.len() <= u64::MAX,
        settled(contents, log),
    ensures
        filed(contents, log),
{
    assert(filed(contents, empty_log()));
    lemma_scanned_filed(contents, empty_log(), log);
}

/// What requests keep: the log stays settled, no node is lost, and the log never shrinks.
#[verifier::opaque]
pub open spec fn kept(before: Seq<u8>, old_log: LogView, after: Seq<u8>, new_log: LogView) -> bool {
    &&& after.len() == before.len()
    &&& settled(after, new_log)
    &&& keeps_nodes(before, old_log, after, new_log)
    &&& old_log.next <= new_log.next
}

/// What is kept, spelled out for one node.
proof fn lemma_kept(
    before: Seq<u8>,
    old_log: LogView,
    after: Seq<u8>,
    new_log: LogView,
    id: NodeId,
)
    requires
        kept(before, old_log, after, new_log),
    ensures
        after.len() == before.len(),
        settled(after, new_log),
        old_log.nodes.dom().contains(id) ==> new_log.nodes.dom().contains(id) && lookup(
            after,
            new_log.nodes,
            id,
        ) == lookup(before, old_log.nodes, id),
{
    reveal(kept);
}

proof fn lemma_all_kept(contents: Seq<u8>, log: LogView)
    requires
        settled(contents, log),
    ensures
        kept(contents, log, contents, log),
{
    reveal(kept);
}

proof fn lemma_kept_on(
    first: Seq<u8>,
    first_log: LogView,
    second: Seq<u8>,
    second_log: LogView,
    third: Seq<u8>,
    third_log: LogView,
)
    requires
        kept(first, first_log, second, second_log),
        kept(second, second_log, third, third_log),
    ensures
        kept(first, first_log, third, third_log),
{
    reveal(kept);
}

#[verifier::spinoff_prover]
proof fn lemma_control_kept(
    contents: Seq<u8>,
    log: LogView,
    kind: RecordKind,
    payload: Seq<u8>,
    indexed: LogView,
)
    requires
        contents.len() <= u64::MAX,
        settled(contents, log),
        log.next + record_span(payload.len()) <= contents.len(),
        0 < payload.len() <= MAX_RECORD_PAYLOAD,
        log.indexed(contents, kind, payload) == Ok::<LogView, FileDagStoreError>(indexed),
        indexed.nodes == log.nodes,
    ensures
        kept(
            contents,
            log,
            splice(contents, log.next as int, record_bytes(kind.number(), payload)),
            LogView { next: (log.next + record_span(payload.len())) as u64, ..indexed },
        ),
{
    let after = splice(contents, log.next as int, record_bytes(kind.number(), payload));
    let grown = LogView { next: (log.next + record_span(payload.len())) as u64, ..indexed };
    assert(after.len() == contents.len()) by {
        lemma_record_parts(contents, log.next as int, kind.number(), payload);
    }
    assert(settled(after, grown)) by {
        law_appended_record_is_scanned(contents, log, kind, payload, indexed);
    }
    assert(keeps_nodes(contents, log, after, grown)) by {
        law_settled_is_filed(contents, log);
        assert forall|id: NodeId| #[trigger] log.nodes.dom().contains(id) implies lookup(
            after,
            grown.nodes,
            id,
        ) == lookup(contents, log.nodes, id) by {
            law_append_keeps_nodes(contents, log, kind.number(), payload, None, id);
        }
    }
    reveal(kept);
}

#[verifier::spinoff_prover]
proof fn lemma_append_kept(contents: Seq<u8>, log: LogView, node: NodeView)
    requires
        contents.len() <= u64::MAX,
        settled(contents, log),
        append_problem(contents, log, node) is None,
    ensures
        kept(contents, log, appended_contents(contents, log, node), appended(log, node)),
        appended(log, node).nodes.dom().contains(id_of(node)),
        lookup(
            appended_contents(contents, log, node),
            appended(log, node).nodes,
            id_of(node),
        ) == Ok::<NodeView, FileDagStoreError>(node),
{
    if log.nodes.dom().contains(id_of(node)) {
        lemma_all_kept(contents, log);
    } else {
        law_settled_is_filed(contents, log);
        lemma_append_laws(contents, log, node, id_of(node));
        assert(appended_contents(contents, log, node).len() == contents.len()) by {
            lemma_record_parts(contents, log.next as int, node.kind().number(), node.payload());
        }
        reveal(kept);
    }
}

/// A request on a settled log leaves a settled log, in which every node is found as it was.
#[verifier::spinoff_prover]
pub proof fn law_request_keeps_the_log(contents: Seq<u8>, log: LogView, request: LogRequest)
    requires
        contents.len() <= u64::MAX,
        settled(contents, log),
    ensures
        kept(
            contents,
            log,
            logged(contents, log, request).1,
            logged(contents, log, request).2,
        ),
{
    lemma_all_kept(contents, log);
    match request {
        LogRequest::Append { node } => {
            if append_problem(contents, log, node) is None {
                lemma_append_kept(contents, log, node);
            }
        },
        LogRequest::Bind { operation, commit } => {
            let payload = binding_payload(operation, commit);
            lemma_binding_payload(operation, commit);
            if let Ok(indexed) = log.bind(contents, operation, commit) {
                let kind = RecordKind::OperationBinding;
                assert(log.indexed(contents, kind, payload) == Ok::<LogView, FileDagStoreError>(
                    indexed,
                ));
                if !log.bindings.dom().contains(operation) && log.next + record_span(payload.len())
                    <= contents.len() {
                    lemma_control_kept(contents, log, kind, payload, indexed);
                }
            }
        },
        LogRequest::Tombstone { operation, commit } => {
            let payload = binding_payload(operation, commit);
            lemma_binding_payload(operation, commit);
            if let Ok(indexed) = log.tombstone(contents, operation, commit) {
                let kind = RecordKind::OperationTombstone;
                assert(log.indexed(contents, kind, payload) == Ok::<LogView, FileDagStoreError>(
                    indexed,
                ));
                if !log.tombstones.dom().contains(operation) && log.next + record_span(
                    payload.len(),
                ) <= contents.len() {
                    lemma_control_kept(contents, log, kind, payload, indexed);
                }
            }
        },
    }
}

/// A run of requests on a settled log leaves a settled log, in which every node is found as
/// it was.
pub proof fn law_requests_keep_the_log(contents: Seq<u8>, log: LogView, requests: Seq<LogRequest>)
    requires
        contents.len() <= u64::MAX,
        settled(contents, log),
    ensures
        kept(
            contents,
            log,
            logged_all(contents, log, requests).0,
            logged_all(contents, log, requests).1,
        ),
    decreases requests.len(),
{
    if requests.len() > 0 {
        let shorter = requests.drop_last();
        law_requests_keep_the_log(contents, log, shorter);
        let (before, index) = logged_all(contents, log, shorter);
        lemma_kept(contents, log, before, index, arbitrary());
        assert(requests.last() == requests[requests.len() - 1]);
        law_request_keeps_the_log(before, index, requests.last());
        let (_, after, grown) = logged(before, index, requests.last());
        lemma_kept_on(contents, log, before, index, after, grown);
    } else {
        lemma_all_kept(contents, log);
    }
}

/// Whatever was asked of a log that began blank, it is settled.
pub proof fn law_history_is_settled(size: nat, requests: Seq<LogRequest>)
    requires
        size <= u64::MAX,
    ensures
        settled(history(size, requests).0, history(size, requests).1),
        history(size, requests).0.len() == size,
{
    law_blank_log_is_settled(size);
    law_requests_keep_the_log(zeros(size), empty_log(), requests);
    let (contents, log) = history(size, requests);
    lemma_kept(zeros(size), empty_log(), contents, log, arbitrary());
}

/// Whatever was asked of a log that began blank, reopening it finds it as it stands.
pub proof fn law_reopening_finds_the_log(size: nat, requests: Seq<LogRequest>)
    requires
        size <= u64::MAX,
    ensures
        scan(history(size, requests).0) == Ok::<LogView, FileDagStoreError>(
            history(size, requests).1,
        ),
{
    law_history_is_settled(size, requests);
}

/// Every one of the nodes has an encoding and is found.
#[verifier::opaque]
pub open spec fn found_all(contents: Seq<u8>, log: LogView, nodes: Seq<NodeView>) -> bool {
    forall|i: int|
        0 <= i < nodes.len() ==> log.nodes.dom().contains(id_of(#[trigger] nodes[i]))
            && nodes[i].problem() is None && lookup(contents, log.nodes, id_of(nodes[i])) == Ok::<
            NodeView,
            FileDagStoreError,
        >(nodes[i])
}

proof fn lemma_still_found(
    before: Seq<u8>,
    old_log: LogView,
    after: Seq<u8>,
    new_log: LogView,
    nodes: Seq<NodeView>,
)
    requires
        found_all(before, old_log, nodes),
        kept(before, old_log, after, new_log),
    ensures
        found_all(after, new_log, nodes),
{
    reveal(found_all);
    assert forall|i: int| 0 <= i < nodes.len() implies new_log.nodes.dom().contains(
        id_of(#[trigger] nodes[i]),
    ) && nodes[i].problem() is None && lookup(after, new_log.nodes, id_of(nodes[i])) == Ok::<
        NodeView,
        FileDagStoreError,
    >(nodes[i]) by {
        lemma_kept(before, old_log, after, new_log, id_of(nodes[i]));
    }
}

proof fn lemma_one_more_found(contents: Seq<u8>, log: LogView, nodes: Seq<NodeView>)
    requires
        nodes.len() > 0,
        found_all(contents, log, nodes.drop_last()),
        log.nodes.dom().contains(id_of(nodes.last())),
        nodes.last().problem() is None,
        lookup(contents, log.nodes, id_of(nodes.last())) == Ok::<NodeView, FileDagStoreError>(
            nodes.last(),
        ),
    ensures
        found_all(contents, log, nodes),
{
    reveal(found_all);
    assert forall|i: int| 0 <= i < nodes.len() implies log.nodes.dom().contains(
        id_of(#[trigger] nodes[i]),
    ) && nodes[i].problem() is None && lookup(contents, log.nodes, id_of(nodes[i])) == Ok::<
        NodeView,
        FileDagStoreError,
    >(nodes[i]) by {
        if i < nodes.len() - 1 {
            assert(nodes.drop_last()[i] == nodes[i]);
        } else {
            assert(nodes.last() == nodes[i]);
        }
    }
}

/// Nodes that were appended one after the other to a settled log are all found.
#[verifier::spinoff_prover]
proof fn lemma_appended_are_found(
    contents: Seq<u8>,
    log: LogView,
    nodes: Seq<NodeView>,
    after: Seq<u8>,
    grown: LogView,
)
    requires
        contents.len() <= u64::MAX,
        settled(contents, log),
        append_all(contents, log, nodes) == Ok::<(Seq<u8>, LogView), FileDagStoreError>(
            (after, grown),
        ),
    ensures
        kept(contents, log, after, grown),
        found_all(after, grown, nodes),
    decreases nodes.len(),
{
    if nodes.len() == 0 {
        lemma_all_kept(contents, log);
        reveal(found_all);
    } else {
        let shorter = nodes.drop_last();
        let node = nodes.last();
        assert(node == nodes[nodes.len() - 1]);
        let (before, index) = append_all(contents, log, shorter)->Ok_0;
        lemma_appended_are_found(contents, log, shorter, before, index);
        lemma_kept(contents, log, before, index, id_of(node));
        lemma_append_kept(before, index, node);
        lemma_kept_on(contents, log, before, index, after, grown);
        lemma_still_found(before, index, after, grown, shorter);
        lemma_one_more_found(after, grown, nodes);
    }
}

/// What reading a range of a snapshot of these bytes gives.
pub open spec fn range_of(bytes: Seq<u8>, start: u64, end: u64) -> Result<
    Seq<u8>,
    FileDagStoreError,
> {
    if start > end {
        Err(FileDagStoreError::RangeOutOfBounds { start, end, size: 0 })
    } else if end > bytes.len() {
        Err(FileDagStoreError::RangeOutOfBounds { start, end, size: bytes.len() as u64 })
    } else if end - start > MAX_SNAPSHOT_READ_BYTES {
        Err(FileDagStoreError::ResourceLimit("snapshot range length"))
    } else {
        Ok(bytes.subrange(start as int, end as int))
    }
}

/// A snapshot whose nodes all have an encoding is no longer than its map can hold.
proof fn lemma_snapshot_fits(bytes: Seq<u8>)
    requires
        whole_map(bytes).problem() is None,
    ensures
        bytes.len() <= 2_147_483_648,
{
    let count = chunk_count(bytes.len());
    assert(count <= 256);
    assert(bytes.len() <= count * MAX_CONTENT_NODE_PAYLOAD) by (nonlinear_arith)
        requires
            count == (bytes.len() + 8_388_608 - 1) as nat / 8_388_608nat,
            MAX_CONTENT_NODE_PAYLOAD == 8_388_608,
    ;
}

/// A snapshot that the log holds reads back range by range, and a range that it does not
/// have is refused.
#[verifier::spinoff_prover]
proof fn lemma_held_snapshot_reads(
    contents: Seq<u8>,
    log: LogView,
    validated: Set<NodeId>,
    bytes: Seq<u8>,
    parent: Option<CommitId>,
    start: u64,
    end: u64,
)
    requires
        found_all(contents, log, whole_nodes(bytes, parent)),
    ensures
        read_result(
            source(contents, log.nodes),
            validated,
            id_of(NodeView::Commit(whole_commit(bytes, parent))),
            start,
            end,
        ) == range_of(bytes, start, end),
{
    let look = source(contents, log.nodes);
    let nodes = whole_nodes(bytes, parent);
    let count = chunk_count(bytes.len());
    reveal(found_all);
    assert(nodes[count as int] == whole_map(bytes));
    lemma_snapshot_fits(bytes);
    assert(finds_all(look, nodes, nodes.len() as int));
    assert(holds_snapshot(look, bytes, parent));
    assert(nodes[count as int + 1] == NodeView::Snapshot(whole_snapshot(bytes)));
    assert(nodes[count as int + 2] == NodeView::Commit(whole_commit(bytes, parent)));
    if start <= end <= bytes.len() && end - start <= MAX_SNAPSHOT_READ_BYTES {
        law_written_snapshot_reads_back(look, validated, bytes, parent, start, end);
    }
}

/// A snapshot that was appended to a log that began blank reads back range by range, whatever
/// was asked of the log before and after, and whether or not it was closed and opened again:
/// a scan finds the same index.
#[verifier::spinoff_prover]
pub proof fn law_appended_snapshot_reads_back(
    size: nat,
    earlier: Seq<LogRequest>,
    bytes: Seq<u8>,
    parent: Option<CommitId>,
    later: Seq<LogRequest>,
    validated: Set<NodeId>,
    start: u64,
    end: u64,
)
    requires
        size <= u64::MAX,
        append_all(
            history(size, earlier).0,
            history(size, earlier).1,
            whole_nodes(bytes, parent),
        ) is Ok,
    ensures
        ({
            let (before, index) = append_all(
                history(size, earlier).0,
                history(size, earlier).1,
                whole_nodes(bytes, parent),
            )->Ok_0;
            let (contents, log) = logged_all(before, index, later);
            &&& scan(contents) == Ok::<LogView, FileDagStoreError>(log)
            &&& read_result(
                source(contents, log.nodes),
                validated,
                id_of(NodeView::Commit(whole_commit(bytes, parent))),
                start,
                end,
            ) == range_of(bytes, start, end)
        }),
{
    let nodes = whole_nodes(bytes, parent);
    law_history_is_settled(size, earlier);
    let (base, base_log) = history(size, earlier);
    let (before, index) = append_all(base, base_log, nodes)->Ok_0;
    lemma_appended_are_found(base, base_log, nodes, before, index);
    lemma_kept(base, base_log, before, index, arbitrary());
    law_requests_keep_the_log(before, index, later);
    let (contents, log) = logged_all(before, index, later);
    lemma_kept(before, index, contents, log, arbitrary());
    lemma_still_found(before, index, contents, log, nodes);
    lemma_held_snapshot_reads(contents, log, validated, bytes, parent, start, end);
}

/// Reading from a commit that the log does not hold is refused with its identifier.
pub proof fn law_unknown_commit_is_missing(
    contents: Seq<u8>,
    log: LogView,
    validated: Set<NodeId>,
    commit: CommitId,
    start: u64,
    end: u64,
)
    requires
        !log.nodes.dom().contains(commit),
        start <= end,
    ensures
        read_result(source(contents, log.nodes), validated, commit, start, end) == Err::<
            Seq<u8>,
            FileDagStoreError,
        >(FileDagStoreError::MissingNode(commit)),
{
}

/// The operation has ended with the commit.
pub open spec fn ended(log: LogView, operation: u64, commit: CommitId) -> bool {
    &&& log.tombstones.dom().contains(operation)
    &&& log.tombstones[operation] == commit
    &&& !log.bindings.dom().contains(operation)
}

/// No operation is both bound and ended in a log that began blank.
pub proof fn law_bound_operations_have_not_ended(
    size: nat,
    requests: Seq<LogRequest>,
    operation: u64,
)
    ensures
        !(history(size, requests).1.bindings.dom().contains(operation) && history(
            size,
            requests,
        ).1.tombstones.dom().contains(operation)),
    decreases requests.len(),
{
    if requests.len() > 0 {
        law_bound_operations_have_not_ended(size, requests.drop_last(), operation);
    }
}

proof fn lemma_stays_ended(
    contents: Seq<u8>,
    log: LogView,
    requests: Seq<LogRequest>,
    operation: u64,
    commit: CommitId,
)
    requires
        ended(log, operation, commit),
    ensures
        ended(logged_all(contents, log, requests).1, operation, commit),
    decreases requests.len(),
{
    if requests.len() > 0 {
        lemma_stays_ended(contents, log, requests.drop_last(), operation, commit);
    }
}

/// Once a tombstone was put on an operation of a log that began blank, the operation stays
/// ended whatever is asked afterwards, and whether or not the log is closed and opened again.
/// The same tombstone once more changes nothing; a binding of the operation, and a tombstone
/// with another commit that the log holds, are refused.
#[verifier::spinoff_prover]
pub proof fn law_ended_operation_stays_ended(
    size: nat,
    earlier: Seq<LogRequest>,
    operation: u64,
    commit: CommitId,
    later: Seq<LogRequest>,
    other: CommitId,
)
    requires
        size <= u64::MAX,
        history(size, earlier).1.bindings.dom().contains(operation),
        history(size, earlier).1.bindings[operation] == commit,
        logged(
            history(size, earlier).0,
            history(size, earlier).1,
            LogRequest::Tombstone { operation, commit },
        ).0 is None,
    ensures
        ({
            let (_, before, index) = logged(
                history(size, earlier).0,
                history(size, earlier).1,
                LogRequest::Tombstone { operation, commit },
            );
            let (contents, log) = logged_all(before, index, later);
            let refused = (
                Some(FileDagStoreError::OperationConflict(operation)),
                contents,
                log,
            );
            &&& scan(contents) == Ok::<LogView, FileDagStoreError>(log)
            &&& ended(log, operation, commit)
            &&& logged(contents, log, LogRequest::Tombstone { operation, commit }) == (
                None::<FileDagStoreError>,
                contents,
                log,
            )
            &&& logged(contents, log, LogRequest::Bind { operation, commit }) == refused
            &&& other != commit && commit_problem(contents, log.nodes, other) is None ==> logged(
                contents,
                log,
                LogRequest::Tombstone { operation, commit: other },
            ) == refused
        }),
{
    let request = LogRequest::Tombstone { operation, commit };
    law_history_is_settled(size, earlier);
    let (base, base_log) = history(size, earlier);
    law_request_keeps_the_log(base, base_log, request);
    law_bound_operations_have_not_ended(size, earlier, operation);
    let (_, before, index) = logged(base, base_log, request);
    lemma_kept(base, base_log, before, index, commit);
    law_requests_keep_the_log(before, index, later);
    let (contents, log) = logged_all(before, index, later);
    lemma_kept(before, index, contents, log, commit);
    assert(commit_problem(base, base_log.nodes, commit) is None);
    assert(base_log.nodes.dom().contains(commit));
    assert(lookup(before, index.nodes, commit) == lookup(base, base_log.nodes, commit));
    assert(lookup(contents, log.nodes, commit) == lookup(before, index.nodes, commit));
    assert(commit_problem(contents, log.nodes, commit) is None);
    lemma_stays_ended(before, index, later, operation, commit);
}

} // verus!
