//! What the store promises.
use vstd::prelude::*;

use crate::bytes::{le_bytes, lemma_le_roundtrip, lemma_pow256_values, zeros};
use crate::device::block::{saved, BlockDevice};
use crate::engine::format::{lemma_object_id, object_id};
use crate::engine::laws::lemma_array;
use crate::record_log::format::{
    aligned, header_bytes, header_of, law_header_reads_back, lemma_checksum_fits, Error, ObjectId,
    RecordHeader, RecordKind, Root, MAX_RECORD_PAYLOAD,
};
use crate::record_log::store::{
    after_append, append_problem, commit_problem, commit_right, committed, empty_log, goes_on,
    new_header, object_at, object_bytes, put_right, record_at, root_of, root_payload, scan,
    with_entry, with_record, LogView, Store,
};

verus! {

/// Whether the device holds the log that the store knows and nothing after it.
pub open spec fn settled(v: LogView, c: Seq<u8>) -> bool {
    &&& scan(c, 0, empty_log()) == Ok::<LogView, Error>(v)
    &&& c.len() <= u64::MAX
    &&& forall|i: int| v.append_offset <= i < c.len() ==> c[i] == 0
}

/// An empty store on a blank device is settled.
pub proof fn law_blank_device_is_settled(c: Seq<u8>)
    requires
        c == zeros(c.len()),
        c.len() <= u64::MAX,
    ensures
        settled(empty_log(), c),
{
    if c.len() >= 32 {
        assert(c.subrange(0, 32) =~= zeros(32));
    }
}

/// A scan does not end before it starts.
proof fn lemma_scan_ends_later(c: Seq<u8>, at: int, v: LogView)
    requires
        0 <= at,
        c.len() <= u64::MAX,
        at <= u64::MAX,
    ensures
        scan(c, at, v) matches Ok(end) ==> end.append_offset >= at,
    decreases c.len() + 8 - at,
{
    if at + 32 <= c.len() && c.subrange(at, at + 32) != zeros(32) {
        match record_at(c, at) {
            Ok((header, payload)) => {
                match with_entry(v, at as u64, header.kind, payload) {
                    Ok(more) => {
                        if at + 32 + payload.len() + 7 <= u64::MAX {
                            lemma_scan_ends_later(c, aligned(at + 32 + payload.len()), more);
                        }
                    },
                    Err(_) => {},
                }
            },
            Err(_) => {},
        }
    }
}

/// A log with something written behind it reads the same up to there.
proof fn lemma_scan_prefix(c: Seq<u8>, d: Seq<u8>, at: int, v: LogView, end: LogView)
    requires
        0 <= at <= end.append_offset,
        c.len() == d.len(),
        c.len() <= u64::MAX,
        forall|i: int| 0 <= i < end.append_offset && i < c.len() ==> c[i] == d[i],
        scan(c, at, v) == Ok::<LogView, Error>(end),
    ensures
        scan(d, at, v) == scan(
            d,
            end.append_offset as int,
            LogView { append_offset: v.append_offset, ..end },
        ),
    decreases c.len() + 8 - at,
{
    if at < end.append_offset {
        let (header, payload) = record_at(c, at)->Ok_0;
        let next = at + 32 + payload.len();
        let more = with_entry(v, at as u64, header.kind, payload)->Ok_0;
        lemma_scan_ends_later(c, aligned(next), more);
        assert(c.subrange(at, at + 32) =~= d.subrange(at, at + 32));
        assert(c.subrange(at + 32, next) =~= d.subrange(at + 32, next));
        lemma_scan_prefix(c, d, aligned(next), more, end);
    } else {
        lemma_scan_end(c, at, v, end);
    }
}

/// A scan that ends where it starts adds nothing.
proof fn lemma_scan_end(c: Seq<u8>, at: int, v: LogView, end: LogView)
    requires
        0 <= at,
        c.len() <= u64::MAX,
        at == end.append_offset,
        scan(c, at, v) == Ok::<LogView, Error>(end),
    ensures
        v == (LogView { append_offset: v.append_offset, ..end }),
{
    if at + 32 <= c.len() && c.subrange(at, at + 32) != zeros(32) {
        let (header, payload) = record_at(c, at)->Ok_0;
        let more = with_entry(v, at as u64, header.kind, payload)->Ok_0;
        lemma_scan_ends_later(c, aligned(at + 32 + payload.len()), more);
    }
}

/// A record that was written reads back.
pub proof fn law_record_reads_back(
    c: Seq<u8>,
    at: int,
    kind: RecordKind,
    payload: Seq<u8>,
    generation: u64,
)
    requires
        0 <= at,
        at + 32 + payload.len() <= c.len() <= u64::MAX,
        payload.len() <= MAX_RECORD_PAYLOAD,
    ensures
        with_record(c, at, kind, payload, generation).len() == c.len(),
        with_record(c, at, kind, payload, generation).subrange(at, at + 32) != zeros(32),
        record_at(with_record(c, at, kind, payload, generation), at) == Ok::<
            (RecordHeader, Seq<u8>),
            Error,
        >((new_header(kind, payload, generation), payload)),
{
    lemma_checksum_fits(kind, generation, payload);
    let header = new_header(kind, payload, generation);
    law_header_reads_back(header);
    let d = with_record(c, at, kind, payload, generation);
    assert(d.subrange(at, at + 32) =~= header_bytes(header));
    assert(d.subrange(at + 32, at + 32 + payload.len()) =~= payload);
}

/// Appending a record to a settled log leaves it settled, with what the record says.
proof fn lemma_append_settles(
    v: LogView,
    c: Seq<u8>,
    kind: RecordKind,
    payload: Seq<u8>,
    generation: u64,
    more: LogView,
)
    requires
        settled(v, c),
        append_problem(v.append_offset, c.len(), payload.len()) is None,
        goes_on(v, payload.len()),
        with_entry(
            LogView { append_offset: 0, ..v },
            v.append_offset,
            kind,
            payload,
        ) == Ok::<LogView, Error>(more),
    ensures
        settled(
            LogView {
                append_offset: aligned(v.append_offset + 32 + payload.len()) as u64,
                ..more
            },
            with_record(c, v.append_offset as int, kind, payload, generation),
        ),
{
    let at = v.append_offset as int;
    let d = with_record(c, at, kind, payload, generation);
    let next = aligned(at + 32 + payload.len());
    law_record_reads_back(c, at, kind, payload, generation);
    law_header_reads_back(new_header(kind, payload, generation));
    assert forall|i: int| 0 <= i < at && i < c.len() implies c[i] == d[i] by {}
    lemma_scan_prefix(c, d, 0, empty_log(), v);
    assert forall|i: int| next <= i < d.len() implies d[i] == 0 by {
        assert(d[i] == c[i]);
    }
    if next + 32 <= d.len() {
        assert(d.subrange(next, next + 32) =~= zeros(32));
    }
    assert(scan(d, next, more) == Ok::<LogView, Error>(
        LogView { append_offset: next as u64, ..more },
    ));
}

/// Opening the device anew finds what was there before some bytes were stored, and
/// those bytes.
pub proof fn law_stored_bytes_survive_reopening(
    v: LogView,
    c: Seq<u8>,
    id: ObjectId,
    data: Seq<u8>,
)
    requires
        settled(v, c),
        !v.index.dom().contains(id),
        append_problem(v.append_offset, c.len(), 32 + data.len()) is None,
        goes_on(v, 32 + data.len()),
    ensures
        ({
            let d = with_record(c, v.append_offset as int, RecordKind::Chunk, id@ + data, 0);
            let after = after_append(v, RecordKind::Chunk, id@ + data);
            &&& settled(after, d)
            &&& object_bytes(after, d, id) == Ok::<Seq<u8>, Error>(data)
        }),
{
    let payload = id@ + data;
    let at = v.append_offset;
    let start = LogView { append_offset: 0, ..v };
    let more = LogView { index: v.index.insert(object_id(payload.take(32)), at), ..start };
    lemma_append_settles(v, c, RecordKind::Chunk, payload, 0, more);
    law_record_reads_back(c, at as int, RecordKind::Chunk, payload, 0);
    assert(payload.take(32) =~= id@);
    assert(payload.skip(32) =~= data);
    lemma_object_id(id);
}

/// Opening the device anew finds a committed root, and every object that was there.
pub proof fn law_committed_root_survives_reopening(
    v: LogView,
    c: Seq<u8>,
    manifest: ObjectId,
    generation: u64,
)
    requires
        settled(v, c),
        commit_problem(v, manifest, generation) is None,
        append_problem(v.append_offset, c.len(), 40) is None,
        goes_on(v, 40),
    ensures
        settled(
            committed(v, manifest, generation),
            with_record(
                c,
                v.append_offset as int,
                RecordKind::RootCommit,
                root_payload(manifest, generation),
                generation,
            ),
        ),
        committed(v, manifest, generation).root == Some(Root { generation, manifest }),
        committed(v, manifest, generation).index == v.index,
{
    let payload = root_payload(manifest, generation);
    lemma_pow256_values();
    lemma_le_roundtrip(generation as nat, 8);
    assert(payload.len() == 40);
    assert(payload.take(32) =~= manifest@);
    assert(payload.subrange(32, 40) =~= le_bytes(generation as nat, 8));
    lemma_object_id(manifest);
    assert(root_of(payload) == Root { generation, manifest });
    let start = LogView { append_offset: 0, ..v };
    let more = LogView { root: Some(Root { generation, manifest }), ..start };
    lemma_append_settles(v, c, RecordKind::RootCommit, payload, generation, more);
}

/// Bytes that were stored survive a power loss, with everything that was there.
pub proof fn law_stored_bytes_survive_power_loss<D: BlockDevice>(
    before: Store<D>,
    after: Store<D>,
    data: Seq<u8>,
    r: Result<ObjectId, Error>,
)
    requires
        before.device.steady(),
        saved(before.device),
        settled(before@, before.device.contents()),
        put_right(before, after, data, r),
        r is Ok,
    ensures
        settled(after@, after.device.durable()),
        !before@.index.dom().contains(r->Ok_0) ==> object_bytes(
            after@,
            after.device.durable(),
            r->Ok_0,
        ) == Ok::<Seq<u8>, Error>(data),
{
    let id = r->Ok_0;
    if !before@.index.dom().contains(id) {
        assert((id@ + data).len() == 32 + data.len());
        law_stored_bytes_survive_reopening(before@, before.device.contents(), id, data);
    }
}

/// A commit that was acknowledged survives a power loss.
pub proof fn law_committed_root_survives_power_loss<D: BlockDevice>(
    before: Store<D>,
    after: Store<D>,
    manifest: ObjectId,
    generation: u64,
    r: Result<Root, Error>,
)
    requires
        before.device.steady(),
        settled(before@, before.device.contents()),
        commit_right(before, after, manifest, generation, r),
        r is Ok,
    ensures
        settled(after@, after.device.durable()),
        after@.root == Some(Root { generation, manifest }),
        after@.index == before@.index,
{
    assert(root_payload(manifest, generation).len() == 40) by {
        lemma_pow256_values();
        lemma_le_roundtrip(generation as nat, 8);
    }
    law_committed_root_survives_reopening(
        before@,
        before.device.contents(),
        manifest,
        generation,
    );
}

/// Whether the record of an object is intact and lies before `limit`.
spec fn placed(c: Seq<u8>, id: ObjectId, at: u64, limit: int) -> bool {
    object_at(c, at, id) matches Ok(bytes) && at + 64 + bytes.len() <= limit
}

proof fn lemma_scan_places(c: Seq<u8>, at: int, v: LogView, end: LogView)
    requires
        0 <= at <= u64::MAX,
        c.len() <= u64::MAX,
        scan(c, at, v) == Ok::<LogView, Error>(end),
        forall|id: ObjectId|
            #[trigger] v.index.dom().contains(id) ==> placed(c, id, v.index[id], at),
    ensures
        forall|id: ObjectId|
            #[trigger] end.index.dom().contains(id) ==> placed(
                c,
                id,
                end.index[id],
                end.append_offset as int,
            ),
    decreases c.len() + 8 - at,
{
    if at + 32 <= c.len() && c.subrange(at, at + 32) != zeros(32) {
        let (header, payload) = record_at(c, at)->Ok_0;
        let more = with_entry(v, at as u64, header.kind, payload)->Ok_0;
        let next = aligned(at + 32 + header.payload_len);
        if !(header.kind is RootCommit) {
            let id = lemma_array(payload.take(32));
            lemma_object_id(id);
            assert(placed(c, id, at as u64, next));
        }
        lemma_scan_places(c, next, more, end);
    }
}

/// Every object that a settled store knows reads back.
pub proof fn law_known_objects_read_back(v: LogView, c: Seq<u8>, id: ObjectId)
    requires
        settled(v, c),
        v.index.dom().contains(id),
    ensures
        object_bytes(v, c, id) is Ok,
{
    lemma_scan_places(c, 0, empty_log(), v);
    assert(placed(c, id, v.index[id], v.append_offset as int));
}

/// An object reads the same after another record is appended.
pub proof fn law_objects_stay(
    v: LogView,
    c: Seq<u8>,
    id: ObjectId,
    kind: RecordKind,
    payload: Seq<u8>,
    generation: u64,
)
    requires
        settled(v, c),
        v.index.dom().contains(id),
        append_problem(v.append_offset, c.len(), payload.len()) is None,
    ensures
        object_bytes(
            v,
            with_record(c, v.append_offset as int, kind, payload, generation),
            id,
        ) == object_bytes(v, c, id),
{
    lemma_scan_places(c, 0, empty_log(), v);
    assert(placed(c, id, v.index[id], v.append_offset as int));
    let at = v.index[id] as int;
    let d = with_record(c, v.append_offset as int, kind, payload, generation);
    law_header_reads_back(new_header(kind, payload, generation));
    let header = header_of(c.subrange(at, at + 32))->Ok_0;
    assert(c.subrange(at, at + 32) =~= d.subrange(at, at + 32));
    assert(c.subrange(at + 32, at + 32 + header.payload_len) =~= d.subrange(
        at + 32,
        at + 32 + header.payload_len,
    ));
}

} // verus!
