//! What holds of the object store across writes, commits and reopening.
use vstd::prelude::*;

use crate::bytes::{
    le_bytes, le_value, lemma_le_bytes_len, lemma_le_roundtrip, lemma_pow256_values, zeros,
};
use crate::device::block::{between, saved, BlockDevice, DeviceError};
use crate::engine::commit::{
    commit_leaves, commit_problem, commit_right, committed_bytes, law_record_reads_back, new_super,
    root_payload, lemma_sealed,
};
use crate::engine::format::{
    chunk_digest, header_of, law_super_reads_back, layout_of, lemma_header_len,
    lemma_object_id, lemma_super_body_len, manifest_digest, object_id, record_digest, super_bytes,
    super_of, ChunkRef, Error, Header, Kind, ObjectId, Root, Super, MAX_PAYLOAD, RECORDS_START,
    SLOT_SIZE,
};
use crate::engine::log::{
    aligned, append_problem, body_of, candidate_valid, chunk_bytes, chunk_problem, committed_end,
    indexed, joined, load, manifest_problem, new_header, object_bytes, object_problem, open_outcome,
    record_at, refs_of, same_root, scan_log, tail_of, with_record, Entry, Index, StoreView,
};
use crate::engine::objects::{put_object_right, put_outcome};
use crate::engine::soundness::sound;
use crate::engine::store::Store;
use crate::engine::write::object_payload;
use crate::first::{first_some, lemma_first_clear, lemma_first_none};

verus! {

/// Whether two devices hold the same bytes from `from` up to `to`.
pub open spec fn agree(c: Seq<u8>, d: Seq<u8>, from: int, to: int) -> bool {
    d.len() == c.len() && forall|k: int| from <= k < to ==> #[trigger] d[k] == c[k]
}

/// The record of an object that is indexed: intact, of the kind that the index says, and
/// within the first `bound` bytes.
pub open spec fn entry_intact(c: Seq<u8>, id: ObjectId, entry: Entry, bound: int) -> bool {
    record_at(c, entry.offset as int) matches Ok((header, payload)) && {
        &&& header.kind == entry.kind
        &&& header.len == entry.len
        &&& !(header.kind is Root)
        &&& object_problem(header.kind, payload) is None
        &&& object_id(payload.take(32)) == id
        &&& payload.take(32) == id@
        &&& entry.offset + 32 + payload.len() <= bound
    }
}

pub open spec fn all_intact(c: Seq<u8>, index: Index, bound: int) -> bool {
    forall|id: ObjectId| #[trigger]
        index.dom().contains(id) ==> entry_intact(c, id, index[id], bound)
}

/// The payload of an indexed object.
pub open spec fn payload_of(c: Seq<u8>, entry: Entry) -> Seq<u8> {
    record_at(c, entry.offset as int)->Ok_0.1
}

/// Whether every object of the first index is in the second, with the same bytes.
pub open spec fn holds_all(c: Seq<u8>, some: Index, all: Index) -> bool {
    forall|id: ObjectId| #[trigger]
        some.dom().contains(id) ==> all.dom().contains(id) && all[id].kind == some[id].kind
            && payload_of(c, all[id]) == payload_of(c, some[id])
}

/// The index over everything that was appended.
pub open spec fn full_index(v: StoreView, c: Seq<u8>) -> Result<Index, Error> {
    scan_log(c, RECORDS_START as int, v.append_offset as int, Map::empty())
}

/// Whether the log is intact up to where records are appended, and holds everything
/// that the store knows.
pub open spec fn settled(v: StoreView, c: Seq<u8>) -> bool {
    &&& v.append_offset % 8 == 0
    &&& RECORDS_START <= v.append_offset <= c.len()
    &&& c.len() <= u64::MAX
    &&& all_intact(c, v.index, v.append_offset as int)
    &&& full_index(v, c) matches Ok(full) && holds_all(c, v.index, full)
}

/// Whether an identifier stands for its bytes.
pub open spec fn named_right(kind: Kind, id: ObjectId, bytes: Seq<u8>) -> bool {
    id@ == match kind {
        Kind::Chunk => chunk_digest(bytes),
        _ => manifest_digest(bytes),
    } && !(kind is Root)
}

/// Whether the log holds no other object under the identifier.
pub open spec fn no_clash(v: StoreView, c: Seq<u8>, kind: Kind, id: ObjectId, bytes: Seq<u8>) -> bool {
    full_index(v, c) matches Ok(full) ==> full.dom().contains(id) ==> full[id].kind == kind
        && payload_of(c, full[id]) == object_payload(id@, bytes)
}

proof fn lemma_record_stable(c: Seq<u8>, d: Seq<u8>, o: int, bound: int)
    requires
        record_at(c, o) is Ok,
        o + 32 + record_at(c, o)->Ok_0.1.len() <= bound,
        agree(c, d, RECORDS_START as int, bound),
    ensures
        record_at(d, o) == record_at(c, o),
{
    let (header, payload) = record_at(c, o)->Ok_0;
    assert(d.subrange(o, o + 32) =~= c.subrange(o, o + 32));
    assert(d.subrange(o + 32, o + 32 + header.len) =~= c.subrange(
        o + 32,
        o + 32 + header.len,
    ));
}

pub proof fn lemma_scan_stable(c: Seq<u8>, d: Seq<u8>, o: int, end: int, index: Index)
    requires
        RECORDS_START <= o,
        scan_log(c, o, end, index) is Ok,
        agree(c, d, RECORDS_START as int, end),
    ensures
        scan_log(d, o, end, index) == scan_log(c, o, end, index),
    decreases end - o,
{
    if o < end {
        let (header, payload) = record_at(c, o)->Ok_0;
        lemma_record_stable(c, d, o, end);
        let next = aligned(o + 32 + payload.len());
        lemma_scan_stable(c, d, next, end, indexed(index, o as u64, header, payload));
    }
}

pub proof fn lemma_scan_extend(c: Seq<u8>, o: int, mid: int, end: int, index: Index)
    requires
        scan_log(c, o, mid, index) is Ok,
        record_at(c, mid) is Ok,
        mid + 32 + record_at(c, mid)->Ok_0.1.len() + 7 <= u64::MAX,
        end == aligned(mid + 32 + record_at(c, mid)->Ok_0.1.len()),
        object_problem(record_at(c, mid)->Ok_0.0.kind, record_at(c, mid)->Ok_0.1) is None,
    ensures
        scan_log(c, o, end, index) == Ok::<Index, Error>(
            indexed(
                scan_log(c, o, mid, index)->Ok_0,
                mid as u64,
                record_at(c, mid)->Ok_0.0,
                record_at(c, mid)->Ok_0.1,
            ),
        ),
    decreases mid - o,
{
    if o < mid {
        let (header, payload) = record_at(c, o)->Ok_0;
        let next = aligned(o + 32 + payload.len());
        lemma_scan_extend(c, next, mid, end, indexed(index, o as u64, header, payload));
    } else {
        let (header, payload) = record_at(c, mid)->Ok_0;
        let after = indexed(index, mid as u64, header, payload);
        assert(scan_log(c, end, end, after) == Ok::<Index, Error>(after));
    }
}

/// What a scan indexes is intact.
pub proof fn lemma_scan_intact(c: Seq<u8>, o: int, end: int, index: Index)
    requires
        RECORDS_START <= o,
        scan_log(c, o, end, index) is Ok,
        all_intact(c, index, end),
        end <= u64::MAX,
    ensures
        all_intact(c, scan_log(c, o, end, index)->Ok_0, end),
    decreases end - o,
{
    if o < end {
        let (header, payload) = record_at(c, o)->Ok_0;
        let next = aligned(o + 32 + payload.len());
        let after = indexed(index, o as u64, header, payload);
        if !(header.kind is Root) {
            lemma_named(header.kind, payload);
        }
        assert forall|id: ObjectId| #[trigger] after.dom().contains(id) implies entry_intact(
            c,
            id,
            after[id],
            end,
        ) by {
            if !index.dom().contains(id) {
                assert(id == object_id(payload.take(32)));
            }
        }
        lemma_scan_intact(c, next, end, after);
    }
}

/// The identifier at the front of an intact object's payload is one.
proof fn lemma_named(kind: Kind, payload: Seq<u8>)
    requires
        !(kind is Root),
        object_problem(kind, payload) is None,
    ensures
        object_id(payload.take(32))@ == payload.take(32),
{
    let bytes = payload.take(32);
    let id = lemma_array(bytes);
    assert(id@ == bytes);
}

/// Every 32 bytes are those of an identifier.
pub proof fn lemma_array(bytes: Seq<u8>) -> (id: ObjectId)
    requires
        bytes.len() == 32,
    ensures
        id@ == bytes,
{
    let id = lemma_array_front(bytes, 32);
    assert(id@ =~= bytes);
    id
}

proof fn lemma_array_front(bytes: Seq<u8>, n: nat) -> (id: ObjectId)
    requires
        bytes.len() == 32,
        n <= 32,
    ensures
        forall|i: int| 0 <= i < n ==> id@[i] == bytes[i],
    decreases n,
{
    if n == 0 {
        object_id(bytes)
    } else {
        let before = lemma_array_front(bytes, (n - 1) as nat);
        let id = vstd::array::spec_array_update(before, n - 1, bytes[n - 1]);
        assert(id@ == before@.update(n - 1, bytes[n - 1]));
        id
    }
}

/// Intact entries stay intact where the bytes below the bound stay.
pub proof fn lemma_intact_stable(c: Seq<u8>, d: Seq<u8>, index: Index, bound: int, larger: int)
    requires
        all_intact(c, index, bound),
        agree(c, d, RECORDS_START as int, bound),
        bound <= larger,
    ensures
        all_intact(d, index, larger),
        forall|id: ObjectId| #[trigger]
            index.dom().contains(id) ==> record_at(d, index[id].offset as int) == record_at(
                c,
                index[id].offset as int,
            ),
{
    assert forall|id: ObjectId| #[trigger] index.dom().contains(id) implies entry_intact(
        d,
        id,
        index[id],
        larger,
    ) && record_at(d, index[id].offset as int) == record_at(c, index[id].offset as int) by {
        assert(entry_intact(c, id, index[id], bound));
        lemma_record_stable(c, d, index[id].offset as int, bound);
    }
}

/// What is known of a store that was just formatted is settled.
pub proof fn law_formatted_is_settled(v: StoreView, c: Seq<u8>)
    requires
        v.index == Map::<ObjectId, Entry>::empty(),
        v.append_offset == RECORDS_START,
        RECORDS_START <= c.len() <= u64::MAX,
    ensures
        settled(v, c),
{
}

/// Writing a record where records are appended changes nothing below.
pub proof fn lemma_with_record_agrees(c: Seq<u8>, at: int, kind: Kind, payload: Seq<u8>, generation: u64)
    requires
        0 <= at,
        at + 32 + payload.len() <= c.len(),
    ensures
        agree(c, with_record(c, at, kind, payload, generation), 0, at),
{
    lemma_header_len(new_header(kind, payload, generation));
    let d = with_record(c, at, kind, payload, generation);
    assert(d.len() == c.len());
    assert forall|k: int| 0 <= k < at implies #[trigger] d[k] == c[k] by {}
}

/// What the device holds after an object was appended.
pub proof fn lemma_new_record(v: StoreView, c: Seq<u8>, kind: Kind, id: ObjectId, bytes: Seq<u8>)
    requires
        v.append_offset % 8 == 0,
        RECORDS_START <= v.append_offset,
        named_right(kind, id, bytes),
        bytes.len() <= MAX_PAYLOAD - 32,
        append_problem(v.append_offset, c.len(), object_payload(id@, bytes).len()) is None,
    ensures
        ({
            let payload = object_payload(id@, bytes);
            let at = v.append_offset as int;
            let d = with_record(c, at, kind, payload, 0);
            &&& agree(c, d, 0, at)
            &&& record_at(d, at) == Ok::<(Header, Seq<u8>), Error>(
                (new_header(kind, payload, 0), payload),
            )
            &&& payload.len() == bytes.len() + 32
            &&& payload.take(32) == id@
            &&& payload.skip(32) == bytes
            &&& object_id(payload.take(32)) == id
            &&& object_problem(kind, payload) is None
        }),
{
    let payload = object_payload(id@, bytes);
    let at = v.append_offset as int;
    law_record_reads_back(c, at, kind, payload, 0);
    lemma_with_record_agrees(c, at, kind, payload, 0);
    assert(payload.take(32) =~= id@);
    assert(payload.skip(32) =~= bytes);
    lemma_object_id(id);
}

/// One more intact object keeps the log settled.
#[verifier::rlimit(40)]
pub proof fn lemma_append_settled(
    v: StoreView,
    c: Seq<u8>,
    w: StoreView,
    d: Seq<u8>,
    id: ObjectId,
    header: Header,
    payload: Seq<u8>,
)
    requires
        settled(v, c),
        agree(c, d, RECORDS_START as int, v.append_offset as int),
        record_at(d, v.append_offset as int) == Ok::<(Header, Seq<u8>), Error>((header, payload)),
        header.len == payload.len(),
        !(header.kind is Root),
        object_problem(header.kind, payload) is None,
        payload.take(32) == id@,
        object_id(payload.take(32)) == id,
        !v.index.dom().contains(id),
        v.append_offset + 32 + payload.len() + 7 <= u64::MAX,
        aligned(v.append_offset + 32 + payload.len()) <= c.len(),
        w.append_offset == aligned(v.append_offset + 32 + payload.len()),
        w.index == v.index.insert(
            id,
            Entry { offset: v.append_offset, kind: header.kind, len: header.len },
        ),
        full_index(v, c) matches Ok(full) ==> full.dom().contains(id) ==> full[id].kind
            == header.kind && payload_of(c, full[id]) == payload,
    ensures
        settled(w, d),
        forall|other: ObjectId| #[trigger]
            v.index.dom().contains(other) ==> record_at(d, v.index[other].offset as int)
                == record_at(c, v.index[other].offset as int),
{
    let at = v.append_offset as int;
    let next = aligned(at + 32 + payload.len());
    let full = full_index(v, c)->Ok_0;
    lemma_scan_stable(c, d, RECORDS_START as int, at, Map::empty());
    lemma_scan_extend(d, RECORDS_START as int, at, next, Map::empty());
    let larger = indexed(full, at as u64, header, payload);
    assert(full_index(w, d) == Ok::<Index, Error>(larger));
    lemma_intact_stable(c, d, v.index, at, next);
    lemma_scan_intact(c, RECORDS_START as int, at, Map::empty());
    lemma_intact_stable(c, d, full, at, next);
    assert(entry_intact(d, id, w.index[id], next));
    assert(all_intact(d, w.index, next)) by {
        assert forall|other: ObjectId| #[trigger] w.index.dom().contains(other) implies entry_intact(
            d,
            other,
            w.index[other],
            next,
        ) by {
            if other != id {
                assert(v.index.dom().contains(other));
            }
        }
    }
    assert(holds_all(d, w.index, larger)) by {
        assert forall|other: ObjectId| #[trigger]
            w.index.dom().contains(other) implies larger.dom().contains(other)
            && larger[other].kind == w.index[other].kind && payload_of(d, larger[other])
            == payload_of(d, w.index[other]) by {
            if other != id {
                assert(v.index.dom().contains(other));
                assert(full.dom().contains(other));
            } else if full.dom().contains(id) {
                assert(entry_intact(c, id, full[id], at));
            }
        }
    }
}

/// Storing an object keeps the log settled. The object reads back, and so does every
/// other that was there. This needs that no two objects of the log share an identifier.
pub proof fn law_stored_object_reads_back(
    v: StoreView,
    c: Seq<u8>,
    kind: Kind,
    id: ObjectId,
    bytes: Seq<u8>,
)
    requires
        settled(v, c),
        named_right(kind, id, bytes),
        bytes.len() <= MAX_PAYLOAD - 32,
        !v.index.dom().contains(id),
        no_clash(v, c, kind, id, bytes),
        put_outcome(v, c, kind, id, bytes).0 is Ok,
    ensures
        ({
            let (_, w, d) = put_outcome(v, c, kind, id, bytes);
            &&& settled(w, d)
            &&& w.index.dom() == v.index.dom().insert(id)
            &&& payload_of(d, w.index[id]) == object_payload(id@, bytes)
            &&& kind is Chunk ==> chunk_bytes(w.index, d, id) == Ok::<Seq<u8>, Error>(bytes)
            &&& forall|other: ObjectId| #[trigger]
                v.index.dom().contains(other) ==> chunk_bytes(w.index, d, other) == chunk_bytes(
                    v.index,
                    c,
                    other,
                )
        }),
{
    let payload = object_payload(id@, bytes);
    let (r, w, d) = put_outcome(v, c, kind, id, bytes);
    let header = new_header(kind, payload, 0);
    lemma_new_record(v, c, kind, id, bytes);
    assert(w.index =~= v.index.insert(
        id,
        Entry { offset: v.append_offset, kind, len: header.len },
    ));
    lemma_append_settled(v, c, w, d, id, header, payload);
    assert(w.index.dom() =~= v.index.dom().insert(id));
    assert forall|other: ObjectId| #[trigger] v.index.dom().contains(other) implies chunk_bytes(
        w.index,
        d,
        other,
    ) == chunk_bytes(v.index, c, other) by {
        assert(w.index[other] == v.index[other]);
    }
}

/// Where two indexes hold the same objects, a chunk is as good in one as in the other.
proof fn lemma_same_chunk(c: Seq<u8>, some: Index, all: Index, bound: int, chunk: ChunkRef)
    requires
        all_intact(c, some, bound),
        all_intact(c, all, bound),
        holds_all(c, some, all),
        some.dom().contains(chunk.id),
    ensures
        chunk_problem(all, c, chunk) == chunk_problem(some, c, chunk),
        chunk_bytes(all, c, chunk.id) == chunk_bytes(some, c, chunk.id),
        body_of(all, c, chunk.id) == body_of(some, c, chunk.id),
{
    assert(entry_intact(c, chunk.id, some[chunk.id], bound));
    assert(all.dom().contains(chunk.id));
    assert(entry_intact(c, chunk.id, all[chunk.id], bound));
}

proof fn lemma_same_join(
    c: Seq<u8>,
    some: Index,
    all: Index,
    bound: int,
    chunks: Seq<ChunkRef>,
)
    requires
        all_intact(c, some, bound),
        all_intact(c, all, bound),
        holds_all(c, some, all),
        forall|i: int| 0 <= i < chunks.len() ==> some.dom().contains((#[trigger] chunks[i]).id),
    ensures
        joined(all, c, chunks) == joined(some, c, chunks),
    decreases chunks.len(),
{
    if chunks.len() > 0 {
        let rest = chunks.drop_last();
        assert forall|i: int| 0 <= i < rest.len() implies some.dom().contains(
            (#[trigger] rest[i]).id,
        ) by {
            assert(rest[i] == chunks[i]);
        }
        lemma_same_join(c, some, all, bound, rest);
        assert(some.dom().contains(chunks[chunks.len() - 1].id));
        lemma_same_chunk(c, some, all, bound, chunks.last());
    }
}

/// A manifest that can be committed on the strength of one index can be on the
/// strength of another that holds the same objects, and its object reads the same.
proof fn lemma_same_manifest(c: Seq<u8>, some: Index, all: Index, bound: int, id: ObjectId)
    requires
        all_intact(c, some, bound),
        all_intact(c, all, bound),
        holds_all(c, some, all),
        manifest_problem(some, c, id) is None,
    ensures
        manifest_problem(all, c, id) is None,
        object_bytes(all, c, id) == object_bytes(some, c, id),
{
    lemma_same_chunk(c, some, all, bound, ChunkRef { id, len: 0 });
    let body = body_of(some, c, id)->Ok_0;
    let (count, total) = layout_of(body)->Ok_0;
    let refs = refs_of(body, count);
    let find = |i: int| chunk_problem(some, c, refs[i]);
    let other = |i: int| chunk_problem(all, c, refs[i]);
    assert(first_some(find, 0, refs.len() as int) is None);
    assert forall|i: int| 0 <= i < refs.len() implies #[trigger] other(i) is None && find(i) is None
        && some.dom().contains(refs[i].id) by {
        lemma_first_none(find, 0, refs.len() as int, i);
        assert(find(i) is None);
        lemma_same_chunk(c, some, all, bound, refs[i]);
    }
    lemma_first_clear(other, 0, refs.len() as int);
    assert forall|i: int| 0 <= i < refs.len() implies some.dom().contains(
        (#[trigger] refs[i]).id,
    ) by {
        assert(other(i) is None);
    }
    lemma_same_join(c, some, all, bound, refs);
}

/// The slot of a superblock.
pub open spec fn slot_bytes(c: Seq<u8>, slot: int) -> Seq<u8> {
    c.subrange(slot * SLOT_SIZE, slot * SLOT_SIZE + 128)
}

/// The generation of a store: that of its root, or zero.
pub open spec fn generation_of(root: Option<Root>) -> u64 {
    match root {
        Some(root) => root.generation,
        None => 0,
    }
}

/// Whether the superblock in use leads to the store's root, and its records lie below
/// where records are appended.
pub open spec fn rooted(v: StoreView, c: Seq<u8>, s: Super) -> bool {
    &&& v.active <= 1
    &&& super_of(slot_bytes(c, v.active as int)) == Ok::<Super, Error>(s)
    &&& candidate_valid(c, s) == Ok::<bool, Error>(true)
    &&& s.generation == generation_of(v.root)
    &&& s.root_offset == 0 || s.root_offset + 72 <= v.append_offset
}

pub proof fn lemma_candidate_stable(c: Seq<u8>, d: Seq<u8>, s: Super, bound: int)
    requires
        candidate_valid(c, s) == Ok::<bool, Error>(true),
        s.root_offset == 0 || s.root_offset + 72 <= bound,
        agree(c, d, RECORDS_START as int, bound),
    ensures
        candidate_valid(d, s) == Ok::<bool, Error>(true),
{
    if s.root_offset != 0 {
        let o = s.root_offset as int;
        assert(d.subrange(o, o + 32) =~= c.subrange(o, o + 32));
        assert(d.subrange(o + 32, o + 72) =~= c.subrange(o + 32, o + 72));
    }
}

/// The bytes of a device that was read in full.
pub open spec fn read_slot_bytes(c: Seq<u8>, slot: int) -> Result<Seq<u8>, DeviceError> {
    Ok(slot_bytes(c, slot))
}

/// A committed root survives: after a commit the device opens with the new root, every
/// object of the store is there with its bytes, and the committed object reads as
/// before. This leaves out the one thing that keeps a device from being opened: bytes
/// behind the log that look like a record of a format that is not known.
pub proof fn law_committed_root_survives_reopen(
    v: StoreView,
    c: Seq<u8>,
    s: Super,
    manifest: ObjectId,
    generation: u64,
)
    requires
        settled(v, c),
        rooted(v, c, s),
        commit_problem(v, c, manifest, generation) is None,
        append_problem(v.append_offset, c.len(), 40) is None,
        tail_of(committed_bytes(v, c, manifest, generation), v.append_offset + 72) is Ok,
    ensures
        ({
            let d = committed_bytes(v, c, manifest, generation);
            let w = open_outcome(d, read_slot_bytes(d, 0), read_slot_bytes(d, 1));
            &&& w is Ok
            &&& w->Ok_0.root == Some(Root { generation, manifest })
            &&& w->Ok_0.active == 1 - v.active
            &&& !w->Ok_0.requires_recovery
            &&& rooted(w->Ok_0, d, new_super(v, manifest, generation))
            &&& object_bytes(w->Ok_0.index, d, manifest) == object_bytes(v.index, c, manifest)
            &&& forall|id: ObjectId| #[trigger]
                v.index.dom().contains(id) ==> chunk_bytes(w->Ok_0.index, d, id) == chunk_bytes(
                    v.index,
                    c,
                    id,
                )
        }),
{
    lemma_sealed(v, manifest, generation);
    let at = v.append_offset as int;
    let t = new_super(v, manifest, generation);
    let d = committed_bytes(v, c, manifest, generation);
    lemma_commit_bytes(v, c, manifest, generation);
    lemma_commit_slots(v, c, s, manifest, generation);
    lemma_candidate_stable(c, d, s, at);
    lemma_commit_index(v, c, d, manifest);
    lemma_commit_load(d, t, v.append_offset as int, full_index(v, c)->Ok_0, manifest, generation);
    let full = full_index(v, c)->Ok_0;
    lemma_open_newer(d, s, t, (1 - v.active) as u8, full, Some(Root { generation, manifest }));
    assert(t.root_offset + 72 <= tail_of(d, at + 72)->Ok_0) by {
        lemma_tail_grows(d, at + 72);
    }
    assert(tail_of(d, at + 72)->Ok_0 <= u64::MAX) by {
        lemma_tail_bound(d, at + 72);
    }
}

/// The bytes after a commit: the records before are as they were, and the root's record
/// is there.
pub proof fn lemma_commit_bytes(v: StoreView, c: Seq<u8>, manifest: ObjectId, generation: u64)
    requires
        v.active <= 1,
        v.append_offset % 8 == 0,
        RECORDS_START <= v.append_offset,
        append_problem(v.append_offset, c.len(), 40) is None,
    ensures
        ({
            let d = committed_bytes(v, c, manifest, generation);
            let payload = root_payload(manifest, generation);
            let at = v.append_offset as int;
            &&& agree(c, d, RECORDS_START as int, at)
            &&& payload.len() == 40
            &&& payload.take(32) == manifest@
            &&& le_value(payload.subrange(32, 40)) == generation
            &&& record_at(d, at) == Ok::<(Header, Seq<u8>), Error>(
                (new_header(Kind::Root, payload, generation), payload),
            )
            &&& d.subrange(at + 32, at + 72) == payload
            &&& header_of(d.subrange(at, at + 32)) == Ok::<Header, Error>(
                new_header(Kind::Root, payload, generation),
            )
        }),
{
    lemma_sealed(v, manifest, generation);
    let payload = root_payload(manifest, generation);
    let at = v.append_offset as int;
    let m = with_record(c, at, Kind::Root, payload, generation);
    let d = committed_bytes(v, c, manifest, generation);
    lemma_le_bytes_len(generation as nat, 8);
    assert(payload.len() == 40);
    law_record_reads_back(c, at, Kind::Root, payload, generation);
    lemma_with_record_agrees(c, at, Kind::Root, payload, generation);
    assert(d.len() == c.len());
    assert(agree(m, d, RECORDS_START as int, c.len() as int)) by {
        assert forall|k: int| RECORDS_START <= k < c.len() implies #[trigger] d[k] == m[k] by {}
    }
    assert(agree(c, d, RECORDS_START as int, at)) by {
        assert forall|k: int| RECORDS_START <= k < at implies #[trigger] d[k] == c[k] by {
            assert(m[k] == c[k]);
        }
    }
    lemma_record_stable(m, d, at, c.len() as int);
    assert(payload.take(32) =~= manifest@);
    assert(payload.subrange(32, 40) =~= le_bytes(generation as nat, 8));
    lemma_pow256_values();
    lemma_le_roundtrip(generation as nat, 8);
}

/// The superblocks after a commit: the new one is in the slot that was not in use, and
/// the other is as it was.
pub proof fn lemma_commit_slots(v: StoreView, c: Seq<u8>, s: Super, manifest: ObjectId, generation: u64)
    requires
        rooted(v, c, s),
        RECORDS_START <= v.append_offset,
        append_problem(v.append_offset, c.len(), 40) is None,
    ensures
        ({
            let d = committed_bytes(v, c, manifest, generation);
            let t = new_super(v, manifest, generation);
            &&& super_of(slot_bytes(d, 1 - v.active)) == Ok::<Super, Error>(t)
            &&& super_of(slot_bytes(d, v.active as int)) == Ok::<Super, Error>(s)
        }),
{
    lemma_sealed(v, manifest, generation);
    let payload = root_payload(manifest, generation);
    let at = v.append_offset as int;
    let t = new_super(v, manifest, generation);
    let m = with_record(c, at, Kind::Root, payload, generation);
    let d = committed_bytes(v, c, manifest, generation);
    lemma_le_bytes_len(generation as nat, 8);
    lemma_with_record_agrees(c, at, Kind::Root, payload, generation);
    lemma_super_body_len(t);
    law_super_reads_back(t);
    assert(slot_bytes(d, 1 - v.active) =~= super_bytes(t));
    assert(slot_bytes(d, v.active as int) =~= slot_bytes(c, v.active as int)) by {
        assert forall|k: int| 0 <= k < 128 implies slot_bytes(d, v.active as int)[k] == slot_bytes(
            c,
            v.active as int,
        )[k] by {
            assert(m[v.active * SLOT_SIZE + k] == c[v.active * SLOT_SIZE + k]);
        }
    }
}

/// What the log holds reads the same from the whole of its records after a commit.
#[verifier::rlimit(30)]
#[verifier::spinoff_prover]
pub proof fn lemma_commit_index(v: StoreView, c: Seq<u8>, d: Seq<u8>, manifest: ObjectId)
    requires
        settled(v, c),
        agree(c, d, RECORDS_START as int, v.append_offset as int),
        manifest_problem(v.index, c, manifest) is None,
    ensures
        scan_log(d, RECORDS_START as int, v.append_offset as int, Map::empty()) == Ok::<
            Index,
            Error,
        >(full_index(v, c)->Ok_0),
        manifest_problem(full_index(v, c)->Ok_0, d, manifest) is None,
        object_bytes(full_index(v, c)->Ok_0, d, manifest) == object_bytes(v.index, c, manifest),
        forall|id: ObjectId| #[trigger]
            v.index.dom().contains(id) ==> chunk_bytes(full_index(v, c)->Ok_0, d, id)
                == chunk_bytes(v.index, c, id),
{
    let at = v.append_offset as int;
    let full = full_index(v, c)->Ok_0;
    lemma_scan_stable(c, d, RECORDS_START as int, at, Map::empty());
    lemma_scan_intact(c, RECORDS_START as int, at, Map::empty());
    lemma_intact_stable(c, d, v.index, at, at + 72);
    lemma_intact_stable(c, d, full, at, at + 72);
    assert(holds_all(d, v.index, full)) by {
        assert forall|id: ObjectId| #[trigger] v.index.dom().contains(id) implies full.dom().contains(
            id,
        ) && full[id].kind == v.index[id].kind && payload_of(d, full[id]) == payload_of(
            d,
            v.index[id],
        ) by {
            assert(full.dom().contains(id));
        }
    }
    lemma_objects_stable(c, d, v.index, at, manifest);
    lemma_same_manifest(d, v.index, full, at + 72, manifest);
    assert forall|id: ObjectId| #[trigger] v.index.dom().contains(id) implies chunk_bytes(
        full,
        d,
        id,
    ) == chunk_bytes(v.index, c, id) by {
        lemma_same_chunk(d, v.index, full, at + 72, ChunkRef { id, len: 0 });
    }
}

/// A superblock that leads to an intact root's record behind the records of its index.
proof fn lemma_root_loads(d: Seq<u8>, t: Super, index: Index, header: Header, payload: Seq<u8>)
    requires
        t.root_offset % 8 == 0,
        t.root_offset >= RECORDS_START,
        t.root_len == 72,
        t.root_offset + 72 <= d.len(),
        scan_log(d, RECORDS_START as int, t.root_offset + 72, Map::empty()) == Ok::<Index, Error>(
            index,
        ),
        record_at(d, t.root_offset as int) == Ok::<(Header, Seq<u8>), Error>((header, payload)),
        header_of(d.subrange(t.root_offset as int, t.root_offset + 32)) == Ok::<Header, Error>(
            header,
        ),
        d.subrange(t.root_offset + 32, t.root_offset + 72) == payload,
        header.kind is Root,
        header.generation == t.generation,
        header.len == 40,
        payload.len() == 40,
        payload.take(32) == t.manifest@,
        le_value(payload.subrange(32, 40)) == t.generation,
        record_digest(header.kind, header.generation, payload) == t.root_digest@,
        manifest_problem(index, d, t.manifest) is None,
    ensures
        candidate_valid(d, t) == Ok::<bool, Error>(true),
        load(d, t) == Ok::<Option<(Index, Option<Root>)>, Error>(
            Some((index, Some(Root { generation: t.generation, manifest: t.manifest }))),
        ),
{
}

/// The new superblock leads to the records up to and with the root's.
pub proof fn lemma_commit_load(
    d: Seq<u8>,
    t: Super,
    at: int,
    full: Index,
    manifest: ObjectId,
    generation: u64,
)
    requires
        at % 8 == 0,
        RECORDS_START <= at,
        at + 72 + 7 <= u64::MAX,
        at + 72 <= d.len(),
        scan_log(d, RECORDS_START as int, at, Map::empty()) == Ok::<Index, Error>(full),
        manifest_problem(full, d, manifest) is None,
        t.generation == generation,
        t.root_offset == at,
        t.root_len == 72,
        t.manifest == manifest,
        ({
            let payload = root_payload(manifest, generation);
            let header = new_header(Kind::Root, payload, generation);
            &&& payload.len() == 40
            &&& payload.take(32) == manifest@
            &&& le_value(payload.subrange(32, 40)) == generation
            &&& record_at(d, at) == Ok::<(Header, Seq<u8>), Error>((header, payload))
            &&& d.subrange(at + 32, at + 72) == payload
            &&& header_of(d.subrange(at, at + 32)) == Ok::<Header, Error>(header)
            &&& t.root_digest@ == record_digest(Kind::Root, generation, payload)
        }),
    ensures
        candidate_valid(d, t) == Ok::<bool, Error>(true),
        load(d, t) == Ok::<Option<(Index, Option<Root>)>, Error>(
            Some((full, Some(Root { generation, manifest }))),
        ),
{
    let payload = root_payload(manifest, generation);
    let header = new_header(Kind::Root, payload, generation);
    assert(aligned(at + 72) == at + 72);
    lemma_scan_extend(d, RECORDS_START as int, at, at + 72, Map::empty());
    lemma_root_loads(d, t, full, header, payload);
}

/// Of two valid superblocks the one of the later generation is opened, if it is intact.
proof fn lemma_open_newer(
    d: Seq<u8>,
    s: Super,
    t: Super,
    slot: u8,
    index: Index,
    root: Option<Root>,
)
    requires
        slot <= 1,
        super_of(slot_bytes(d, slot as int)) == Ok::<Super, Error>(t),
        super_of(slot_bytes(d, 1 - slot)) == Ok::<Super, Error>(s),
        candidate_valid(d, s) == Ok::<bool, Error>(true),
        candidate_valid(d, t) == Ok::<bool, Error>(true),
        t.generation > s.generation,
        load(d, t) == Ok::<Option<(Index, Option<Root>)>, Error>(Some((index, root))),
        tail_of(d, committed_end(t)) is Ok,
    ensures
        open_outcome(d, read_slot_bytes(d, 0), read_slot_bytes(d, 1)) == Ok::<StoreView, Error>(
            StoreView {
                index,
                root,
                append_offset: tail_of(d, committed_end(t))->Ok_0 as u64,
                active: slot,
                requires_recovery: false,
            },
        ),
{
    lemma_not_blank(slot_bytes(d, 0));
    lemma_not_blank(slot_bytes(d, 1));
}

pub proof fn lemma_tail_grows(c: Seq<u8>, o: int)
    requires
        tail_of(c, o) is Ok,
    ensures
        o <= tail_of(c, o)->Ok_0,
    decreases c.len() + 8 - o,
{
    if !(o + 32 > c.len() || c.subrange(o, o + 32) == zeros(32)) {
        if let Ok((header, payload)) = record_at(c, o) {
            lemma_tail_grows(c, aligned(o + 32 + payload.len()));
        }
    }
}

pub proof fn lemma_tail_bound(c: Seq<u8>, o: int)
    requires
        tail_of(c, o) is Ok,
        o <= u64::MAX,
    ensures
        tail_of(c, o)->Ok_0 <= u64::MAX,
    decreases c.len() + 8 - o,
{
    if !(o + 32 > c.len() || c.subrange(o, o + 32) == zeros(32)) {
        if let Ok((header, payload)) = record_at(c, o) {
            if o + 32 + payload.len() + 7 <= u64::MAX {
                lemma_tail_bound(c, aligned(o + 32 + payload.len()));
            }
        }
    }
}

/// A superblock is not blank.
proof fn lemma_not_blank(bytes: Seq<u8>)
    requires
        super_of(bytes) is Ok,
    ensures
        bytes != zeros(128),
{
}

/// What can be committed, and what it reads as, depends on the records alone.
proof fn lemma_objects_stable(c: Seq<u8>, d: Seq<u8>, index: Index, bound: int, id: ObjectId)
    requires
        all_intact(c, index, bound),
        agree(c, d, RECORDS_START as int, bound),
        manifest_problem(index, c, id) is None,
    ensures
        manifest_problem(index, d, id) is None,
        object_bytes(index, d, id) == object_bytes(index, c, id),
{
    lemma_intact_stable(c, d, index, bound, bound);
    let body = body_of(index, c, id)->Ok_0;
    assert(index.dom().contains(id));
    let (count, total) = layout_of(body)->Ok_0;
    let refs = refs_of(body, count);
    let find = |i: int| chunk_problem(index, c, refs[i]);
    let other = |i: int| chunk_problem(index, d, refs[i]);
    assert(first_some(find, 0, refs.len() as int) is None);
    assert forall|i: int| 0 <= i < refs.len() implies #[trigger] other(i) is None by {
        lemma_first_none(find, 0, refs.len() as int, i);
        assert(find(i) is None);
        assert(index.dom().contains(refs[i].id));
    }
    lemma_first_clear(other, 0, refs.len() as int);
    assert forall|i: int| 0 <= i < refs.len() implies index.dom().contains(
        (#[trigger] refs[i]).id,
    ) by {
        assert(other(i) is None);
    }
    lemma_join_stable(c, d, index, bound, refs);
}

proof fn lemma_join_stable(c: Seq<u8>, d: Seq<u8>, index: Index, bound: int, chunks: Seq<ChunkRef>)
    requires
        all_intact(c, index, bound),
        agree(c, d, RECORDS_START as int, bound),
        forall|i: int| 0 <= i < chunks.len() ==> index.dom().contains((#[trigger] chunks[i]).id),
    ensures
        joined(index, d, chunks) == joined(index, c, chunks),
    decreases chunks.len(),
{
    if chunks.len() > 0 {
        lemma_intact_stable(c, d, index, bound, bound);
        let rest = chunks.drop_last();
        assert forall|i: int| 0 <= i < rest.len() implies index.dom().contains(
            (#[trigger] rest[i]).id,
        ) by {
            assert(rest[i] == chunks[i]);
        }
        lemma_join_stable(c, d, index, bound, rest);
        assert(index.dom().contains(chunks[chunks.len() - 1].id));
    }
}

/// What an intact superblock leads to depends on the committed records alone.
#[verifier::rlimit(40)]
pub proof fn lemma_load_stable(c: Seq<u8>, d: Seq<u8>, s: Super)
    requires
        load(c, s) matches Ok(Some(_)),
        candidate_valid(c, s) == Ok::<bool, Error>(true),
        agree(c, d, RECORDS_START as int, committed_end(s)),
        committed_end(s) <= u64::MAX,
    ensures
        load(d, s) == load(c, s),
{
    let end = committed_end(s);
    lemma_scan_stable(c, d, RECORDS_START as int, end, Map::empty());
    if s.root_offset != 0 {
        let index = scan_log(c, RECORDS_START as int, end, Map::empty())->Ok_0;
        lemma_record_stable(c, d, s.root_offset as int, end);
        lemma_scan_intact(c, RECORDS_START as int, end, Map::empty());
        lemma_objects_stable(c, d, index, end, s.manifest);
    }
}

/// A commit that was acknowledged survives a power loss: what the device holds then opens
/// with the new root, and every object of the store is there with its bytes.
pub proof fn law_committed_root_survives_power_loss<D: BlockDevice>(
    before: Store<D>,
    after: Store<D>,
    s: Super,
    manifest: ObjectId,
    generation: u64,
    r: Result<Root, Error>,
)
    requires
        before.device.steady(),
        settled(before@, before.device.contents()),
        rooted(before@, before.device.contents(), s),
        commit_right(before, after, manifest, generation, r),
        r is Ok,
        tail_of(after.device.durable(), before@.append_offset + 72) is Ok,
    ensures
        ({
            let v = before@;
            let c = before.device.contents();
            let d = after.device.durable();
            let w = open_outcome(d, read_slot_bytes(d, 0), read_slot_bytes(d, 1));
            &&& w is Ok
            &&& w->Ok_0.root == Some(Root { generation, manifest })
            &&& object_bytes(w->Ok_0.index, d, manifest) == object_bytes(v.index, c, manifest)
            &&& forall|id: ObjectId| #[trigger]
                v.index.dom().contains(id) ==> chunk_bytes(w->Ok_0.index, d, id) == chunk_bytes(
                    v.index,
                    c,
                    id,
                )
        }),
{
    law_committed_root_survives_reopen(
        before@,
        before.device.contents(),
        s,
        manifest,
        generation,
    );
}

/// Whether the superblock that is not in use can be left aside: it is damaged, older
/// than the one in use, or the same.
pub open spec fn set_aside(d: Seq<u8>, s: Super, other: Result<Super, Error>) -> bool {
    match other {
        Ok(t) => candidate_valid(d, t) is Ok && (t.generation < s.generation || (t.generation
            == s.generation && same_root(s, t))),
        Err(error) => error != Error::UnsupportedFormat,
    }
}

/// A commit that is cut short leaves the root before: a device that still holds the
/// superblock in use and the committed records opens with the root that it had, whatever
/// was appended since, and whatever became of the other superblock, as long as that one can
/// be left aside.
pub proof fn law_unfinished_commit_keeps_root(v: StoreView, c: Seq<u8>, d: Seq<u8>, s: Super)
    requires
        rooted(v, c, s),
        RECORDS_START <= v.append_offset <= c.len(),
        agree(c, d, v.active * SLOT_SIZE, v.active * SLOT_SIZE + 128),
        agree(c, d, RECORDS_START as int, v.append_offset as int),
        load(c, s) matches Ok(Some((_, root))) && root == v.root,
        set_aside(d, s, super_of(slot_bytes(d, 1 - v.active))),
        tail_of(d, committed_end(s)) is Ok,
    ensures
        ({
            let w = open_outcome(d, read_slot_bytes(d, 0), read_slot_bytes(d, 1));
            w is Ok && w->Ok_0.root == v.root
        }),
{
    lemma_load_stable(c, d, s);
    lemma_candidate_stable(c, d, s, v.append_offset as int);
    assert(slot_bytes(d, v.active as int) =~= slot_bytes(c, v.active as int));
    let t = super_of(slot_bytes(d, 1 - v.active));
    lemma_open_older(d, s, v.active, load(d, s)->Ok_0->0, t);
}

/// After a crash the store has the new root or the one before: whatever becomes of a commit
/// on a steady device, what a power loss leaves opens with one of the two. The superblock
/// that was to be written must be whole, or such that it can be left aside; a torn one that
/// passes for another is left out.
pub proof fn law_interrupted_commit_leaves_a_root<D: BlockDevice>(
    before: Store<D>,
    after: Store<D>,
    s: Super,
    manifest: ObjectId,
    generation: u64,
    r: Result<Root, Error>,
)
    requires
        before.device.steady(),
        saved(before.device),
        sound(before@, before.device.contents(), s),
        commit_problem(before@, before.device.contents(), manifest, generation) is None,
        append_problem(before@.append_offset, before.device.contents().len(), 40) is None,
        commit_right(before, after, manifest, generation, r),
        ({
            let c = before.device.contents();
            let d = after.device.durable();
            let other = 1 - before@.active;
            ||| set_aside(d, s, super_of(slot_bytes(d, other))) && tail_of(d, committed_end(s))
                is Ok
            ||| d == committed_bytes(before@, c, manifest, generation) && slot_bytes(d, other)
                != slot_bytes(c, other) && tail_of(d, before@.append_offset + 72) is Ok
        }),
    ensures
        ({
            let d = after.device.durable();
            let w = open_outcome(d, read_slot_bytes(d, 0), read_slot_bytes(d, 1));
            w is Ok && (w->Ok_0.root == before@.root || w->Ok_0.root == Some(
                Root { generation, manifest },
            ))
        }),
{
    let v = before@;
    let c = before.device.contents();
    let d = after.device.durable();
    let at = v.append_offset as int;
    let payload = root_payload(manifest, generation);
    lemma_le_bytes_len(generation as nat, 8);
    lemma_header_len(new_header(Kind::Root, payload, generation));
    let recorded = with_record(c, at, Kind::Root, payload, generation);
    lemma_with_record_agrees(c, at, Kind::Root, payload, generation);
    if set_aside(d, s, super_of(slot_bytes(d, 1 - v.active))) && tail_of(d, committed_end(s))
        is Ok {
        lemma_cut_short_agrees(before, after, manifest, generation);
        law_unfinished_commit_keeps_root(v, c, d, s);
    } else {
        if between(d, c, recorded) {
            assert(slot_bytes(d, 1 - v.active) =~= slot_bytes(c, 1 - v.active));
        }
        law_committed_root_survives_reopen(v, c, s, manifest, generation);
    }
}

/// Whatever becomes of an object that is being stored on a steady device, what a power loss
/// leaves opens with the root that was there.
pub proof fn law_interrupted_put_keeps_root<D: BlockDevice>(
    before: Store<D>,
    after: Store<D>,
    s: Super,
    data: Seq<u8>,
    size: nat,
    r: Result<ObjectId, Error>,
)
    requires
        before.device.steady(),
        saved(before.device),
        sound(before@, before.device.contents(), s),
        put_object_right(before, after, data, size, r),
        set_aside(
            after.device.durable(),
            s,
            super_of(slot_bytes(after.device.durable(), 1 - before@.active)),
        ),
        tail_of(after.device.durable(), committed_end(s)) is Ok,
    ensures
        ({
            let d = after.device.durable();
            let w = open_outcome(d, read_slot_bytes(d, 0), read_slot_bytes(d, 1));
            w is Ok && w->Ok_0.root == before@.root
        }),
{
    law_unfinished_commit_keeps_root(
        before@,
        before.device.contents(),
        after.device.durable(),
        s,
    );
}

/// A commit that is cut short leaves the superblock in use and the records alone.
proof fn lemma_cut_short_agrees<D: BlockDevice>(
    before: Store<D>,
    after: Store<D>,
    manifest: ObjectId,
    generation: u64,
)
    requires
        before.device.steady(),
        saved(before.device),
        before@.active <= 1,
        RECORDS_START <= before@.append_offset <= before.device.contents().len(),
        commit_problem(before@, before.device.contents(), manifest, generation) is None,
        append_problem(before@.append_offset, before.device.contents().len(), 40) is None,
        commit_leaves(before, after, manifest, generation),
    ensures
        ({
            let v = before@;
            let c = before.device.contents();
            let d = after.device.durable();
            &&& agree(c, d, v.active * SLOT_SIZE, v.active * SLOT_SIZE + 128)
            &&& agree(c, d, RECORDS_START as int, v.append_offset as int)
        }),
{
    let v = before@;
    let c = before.device.contents();
    let d = after.device.durable();
    let at = v.append_offset as int;
    let payload = root_payload(manifest, generation);
    lemma_le_bytes_len(generation as nat, 8);
    let recorded = with_record(c, at, Kind::Root, payload, generation);
    let committed = committed_bytes(v, c, manifest, generation);
    lemma_with_record_agrees(c, at, Kind::Root, payload, generation);
    lemma_sealed(v, manifest, generation);
    if !between(d, c, recorded) {
        assert forall|k: int|
            RECORDS_START <= k < at || v.active * SLOT_SIZE <= k < v.active * SLOT_SIZE
                + 128 implies #[trigger] d[k] == c[k] by {
            assert(committed[k] == recorded[k]);
        }
    }
}

/// The superblock in use is opened where the other can be left aside.
proof fn lemma_open_older(
    d: Seq<u8>,
    s: Super,
    slot: u8,
    found: (Index, Option<Root>),
    other: Result<Super, Error>,
)
    requires
        slot <= 1,
        super_of(slot_bytes(d, slot as int)) == Ok::<Super, Error>(s),
        super_of(slot_bytes(d, 1 - slot)) == other,
        candidate_valid(d, s) == Ok::<bool, Error>(true),
        load(d, s) == Ok::<Option<(Index, Option<Root>)>, Error>(Some(found)),
        set_aside(d, s, other),
        tail_of(d, committed_end(s)) is Ok,
    ensures
        ({
            let w = open_outcome(d, read_slot_bytes(d, 0), read_slot_bytes(d, 1));
            w is Ok && w->Ok_0.root == found.1
        }),
{
    lemma_not_blank(slot_bytes(d, slot as int));
    if let Ok(t) = other {
        lemma_same_load(d, s, t);
    }
}

/// Superblocks that lead to the same root of the same generation load the same.
proof fn lemma_same_load(d: Seq<u8>, s: Super, t: Super)
    ensures
        s.generation == t.generation && same_root(s, t) ==> s == t,
{
}

} // verus!
