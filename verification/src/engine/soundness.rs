//! What every request keeps of the object store.
use vstd::prelude::*;

use crate::bytes::{lemma_le_bytes_len, splice, zeros};
use crate::engine::commit::{
    commit_problem, committed_bytes, committed_view, new_super, lemma_sealed,
};
use crate::engine::format::{
    law_super_reads_back, lemma_super_body_len, super_bytes, super_of, Error,
    Kind, ObjectId, Root, Super, MAX_PAYLOAD, RECORDS_START, SLOT_SIZE,
};
use crate::engine::laws::{
    agree, full_index, law_stored_object_reads_back, lemma_candidate_stable,
    lemma_commit_bytes, lemma_commit_index, lemma_commit_load, lemma_commit_slots,
    lemma_intact_stable, lemma_load_stable, lemma_scan_extend, lemma_scan_intact,
    lemma_scan_stable, lemma_tail_bound, lemma_tail_grows, lemma_with_record_agrees, named_right, no_clash, payload_of, read_slot_bytes,
    rooted, settled, slot_bytes,
};
use crate::engine::log::{
    aligned, append_problem, candidate_valid, committed_end, indexed, load, open_outcome, record_at,
    scan_log, tail_of, Entry, Index, StoreView,
};
use crate::engine::objects::put_outcome;
use crate::engine::write::object_payload;

verus! {

/// Whether the store knows what the device holds: the log is intact, the superblock in use
/// leads to the store's root, and opening the device on it finds that root.
pub open spec fn sound(v: StoreView, c: Seq<u8>, s: Super) -> bool {
    &&& settled(v, c)
    &&& rooted(v, c, s)
    &&& load(c, s) matches Ok(Some((_, root))) && root == v.root
}

/// A device that was just formatted holds a sound store.
pub proof fn law_formatted_is_sound(v: StoreView, before: Seq<u8>, c: Seq<u8>, s: Super)
    requires
        v.index == Map::<ObjectId, Entry>::empty(),
        v.root is None,
        v.append_offset == RECORDS_START,
        v.active == 0,
        RECORDS_START <= before.len() <= u64::MAX,
        s.generation == 0,
        s.root_offset == 0,
        s.root_len == 0,
        c == splice(splice(before, 0, super_bytes(s)), SLOT_SIZE as int, super_bytes(s)),
    ensures
        sound(v, c, s),
{
    lemma_super_body_len(s);
    law_super_reads_back(s);
    assert(slot_bytes(c, 0) =~= super_bytes(s));
    assert(scan_log(c, RECORDS_START as int, RECORDS_START as int, Map::empty()) == Ok::<
        Index,
        Error,
    >(Map::empty()));
}

/// Storing an object keeps the store sound, under the same root.
#[verifier::spinoff_prover]
#[verifier::rlimit(30)]
pub proof fn law_put_keeps_soundness(
    v: StoreView,
    c: Seq<u8>,
    s: Super,
    kind: Kind,
    id: ObjectId,
    bytes: Seq<u8>,
)
    requires
        sound(v, c, s),
        named_right(kind, id, bytes),
        bytes.len() <= MAX_PAYLOAD - 32,
        no_clash(v, c, kind, id, bytes),
        put_outcome(v, c, kind, id, bytes).0 is Ok,
    ensures
        ({
            let (_, w, d) = put_outcome(v, c, kind, id, bytes);
            sound(w, d, s) && w.root == v.root
        }),
{
    if !v.index.dom().contains(id) {
        let (_, w, d) = put_outcome(v, c, kind, id, bytes);
        let at = v.append_offset as int;
        law_stored_object_reads_back(v, c, kind, id, bytes);
        lemma_with_record_agrees(c, at, kind, object_payload(id@, bytes), 0);
        lemma_candidate_stable(c, d, s, at);
        lemma_load_stable(c, d, s);
        assert(slot_bytes(d, v.active as int) =~= slot_bytes(c, v.active as int));
    }
}

/// The record of a root behind a settled log leaves it settled.
#[verifier::spinoff_prover]
proof fn lemma_commit_settled(v: StoreView, c: Seq<u8>, d: Seq<u8>, w: StoreView)
    requires
        settled(v, c),
        agree(c, d, RECORDS_START as int, v.append_offset as int),
        record_at(d, v.append_offset as int) matches Ok((header, payload)) && header.kind is Root
            && payload.len() == 40,
        append_problem(v.append_offset, c.len(), 40) is None,
        w.index == v.index,
        w.append_offset == v.append_offset + 72,
    ensures
        settled(w, d),
{
    let at = v.append_offset as int;
    let full = full_index(v, c)->Ok_0;
    assert(aligned(at + 72) == at + 72);
    lemma_scan_stable(c, d, RECORDS_START as int, at, Map::empty());
    lemma_scan_extend(d, RECORDS_START as int, at, at + 72, Map::empty());
    assert(full_index(w, d) == Ok::<Index, Error>(full));
    lemma_scan_intact(c, RECORDS_START as int, at, Map::empty());
    lemma_intact_stable(c, d, v.index, at, at + 72);
    lemma_intact_stable(c, d, full, at, at + 72);
    assert forall|id: ObjectId| #[trigger] w.index.dom().contains(id) implies full.dom().contains(
        id,
    ) && full[id].kind == w.index[id].kind && payload_of(d, full[id]) == payload_of(
        d,
        w.index[id],
    ) by {
        assert(v.index.dom().contains(id));
        assert(full.dom().contains(id));
    }
}

/// The superblock of a new root leads to it.
#[verifier::spinoff_prover]
#[verifier::rlimit(30)]
proof fn lemma_commit_leads(
    v: StoreView,
    c: Seq<u8>,
    s: Super,
    manifest: ObjectId,
    generation: u64,
)
    requires
        settled(v, c),
        rooted(v, c, s),
        commit_problem(v, c, manifest, generation) is None,
        append_problem(v.append_offset, c.len(), 40) is None,
    ensures
        ({
            let d = committed_bytes(v, c, manifest, generation);
            let t = new_super(v, manifest, generation);
            &&& candidate_valid(d, t) == Ok::<bool, Error>(true)
            &&& load(d, t) matches Ok(Some((_, root))) && root == Some(
                Root { generation, manifest },
            )
        }),
{
    lemma_sealed(v, manifest, generation);
    let at = v.append_offset as int;
    let t = new_super(v, manifest, generation);
    let d = committed_bytes(v, c, manifest, generation);
    lemma_commit_bytes(v, c, manifest, generation);
    lemma_commit_index(v, c, d, manifest);
    lemma_commit_load(d, t, at, full_index(v, c)->Ok_0, manifest, generation);
}

/// A commit takes the place of one record.
proof fn lemma_commit_view(v: StoreView, manifest: ObjectId, generation: u64)
    requires
        v.append_offset % 8 == 0,
        v.append_offset + 72 <= u64::MAX,
    ensures
        committed_view(v, manifest, generation).append_offset == v.append_offset + 72,
        committed_view(v, manifest, generation).index == v.index,
        committed_view(v, manifest, generation).active == 1 - v.active || v.active > 1,
{
    lemma_le_bytes_len(generation as nat, 8);
    assert(aligned(v.append_offset + 72) == v.append_offset + 72);
}

#[verifier::spinoff_prover]
proof fn lemma_commit_stays_settled(
    v: StoreView,
    c: Seq<u8>,
    manifest: ObjectId,
    generation: u64,
)
    requires
        settled(v, c),
        v.active <= 1,
        append_problem(v.append_offset, c.len(), 40) is None,
    ensures
        settled(
            committed_view(v, manifest, generation),
            committed_bytes(v, c, manifest, generation),
        ),
{
    lemma_sealed(v, manifest, generation);
    lemma_commit_view(v, manifest, generation);
    lemma_commit_bytes(v, c, manifest, generation);
    lemma_commit_settled(
        v,
        c,
        committed_bytes(v, c, manifest, generation),
        committed_view(v, manifest, generation),
    );
}

#[verifier::spinoff_prover]
proof fn lemma_commit_rooted(
    v: StoreView,
    c: Seq<u8>,
    s: Super,
    manifest: ObjectId,
    generation: u64,
)
    requires
        settled(v, c),
        rooted(v, c, s),
        commit_problem(v, c, manifest, generation) is None,
        append_problem(v.append_offset, c.len(), 40) is None,
    ensures
        rooted(
            committed_view(v, manifest, generation),
            committed_bytes(v, c, manifest, generation),
            new_super(v, manifest, generation),
        ),
{
    lemma_sealed(v, manifest, generation);
    lemma_commit_view(v, manifest, generation);
    lemma_commit_leads(v, c, s, manifest, generation);
    lemma_commit_slots(v, c, s, manifest, generation);
}

/// Committing a root keeps the store sound, under the new root.
#[verifier::spinoff_prover]
pub proof fn law_commit_keeps_soundness(
    v: StoreView,
    c: Seq<u8>,
    s: Super,
    manifest: ObjectId,
    generation: u64,
)
    requires
        sound(v, c, s),
        commit_problem(v, c, manifest, generation) is None,
        append_problem(v.append_offset, c.len(), 40) is None,
    ensures
        sound(
            committed_view(v, manifest, generation),
            committed_bytes(v, c, manifest, generation),
            new_super(v, manifest, generation),
        ),
        committed_view(v, manifest, generation).root == Some(Root { generation, manifest }),
{
    lemma_sealed(v, manifest, generation);
    lemma_commit_view(v, manifest, generation);
    lemma_commit_stays_settled(v, c, manifest, generation);
    lemma_commit_rooted(v, c, s, manifest, generation);
    lemma_commit_leads(v, c, s, manifest, generation);
}

/// A scan keeps what is indexed.
proof fn lemma_scan_keeps(c: Seq<u8>, o: int, end: int, index: Index)
    requires
        scan_log(c, o, end, index) is Ok,
    ensures
        forall|id: ObjectId| #[trigger]
            index.dom().contains(id) ==> scan_log(c, o, end, index)->Ok_0.dom().contains(id)
                && scan_log(c, o, end, index)->Ok_0[id] == index[id],
    decreases end - o,
{
    if o < end {
        let (header, payload) = record_at(c, o)->Ok_0;
        let next = aligned(o + 32 + payload.len());
        let more = indexed(index, o as u64, header, payload);
        lemma_scan_keeps(c, next, end, more);
        assert forall|id: ObjectId| #[trigger] index.dom().contains(id) implies scan_log(
            c,
            o,
            end,
            index,
        )->Ok_0.dom().contains(id) && scan_log(c, o, end, index)->Ok_0[id] == index[id] by {
            assert(more.dom().contains(id));
        }
    }
}

/// A scan that gets through goes through every place where a shorter one ends.
proof fn lemma_scan_split(c: Seq<u8>, o: int, mid: int, end: int, index: Index)
    requires
        scan_log(c, o, mid, index) is Ok,
        mid <= end,
    ensures
        scan_log(c, o, end, index) == scan_log(c, mid, end, scan_log(c, o, mid, index)->Ok_0),
    decreases mid - o,
{
    if o < mid {
        let (header, payload) = record_at(c, o)->Ok_0;
        let next = aligned(o + 32 + payload.len());
        lemma_scan_split(c, next, mid, end, indexed(index, o as u64, header, payload));
    }
}

/// The end of the records that follow each other is aligned as their start is.
#[verifier::spinoff_prover]
#[verifier::rlimit(30)]
proof fn lemma_tail_aligned(c: Seq<u8>, o: int)
    requires
        tail_of(c, o) is Ok,
        o % 8 == 0,
    ensures
        tail_of(c, o)->Ok_0 % 8 == 0,
    decreases c.len() + 8 - o,
{
    if !(o + 32 > c.len() || c.subrange(o, o + 32) == zeros(32)) {
        if let Ok((header, payload)) = record_at(c, o) {
            if o + 32 + payload.len() + 7 <= u64::MAX {
                lemma_tail_aligned(c, aligned(o + 32 + payload.len()));
            }
        }
    }
}

/// A store that was opened on a superblock is sound, where the objects behind the committed
/// records are intact too.
proof fn lemma_opened_is_sound(c: Seq<u8>, s: Super, w: StoreView)
    requires
        w.active <= 1,
        super_of(slot_bytes(c, w.active as int)) == Ok::<Super, Error>(s),
        candidate_valid(c, s) == Ok::<bool, Error>(true),
        load(c, s) == Ok::<Option<(Index, Option<Root>)>, Error>(Some((w.index, w.root))),
        tail_of(c, committed_end(s)) == Ok::<int, Error>(w.append_offset as int),
        c.len() <= u64::MAX,
        w.append_offset <= c.len(),
        full_index(w, c) is Ok,
    ensures
        sound(w, c, s),
{
    let mid = committed_end(s);
    let end = w.append_offset as int;
    lemma_tail_grows(c, mid);
    lemma_tail_aligned(c, mid);
    lemma_scan_split(c, RECORDS_START as int, mid, end, Map::empty());
    lemma_scan_intact(c, RECORDS_START as int, mid, Map::empty());
    lemma_intact_stable(c, c, w.index, mid, end);
    lemma_scan_keeps(c, mid, end, w.index);
}

/// Opening a device gives a sound store, where the objects behind the committed records are
/// intact too.
pub proof fn law_opened_is_sound(c: Seq<u8>, w: StoreView)
    requires
        open_outcome(c, read_slot_bytes(c, 0), read_slot_bytes(c, 1)) == Ok::<StoreView, Error>(w),
        c.len() <= u64::MAX,
        w.append_offset <= c.len(),
        full_index(w, c) is Ok,
    ensures
        exists|s: Super| sound(w, c, s),
{
    let s = super_of(slot_bytes(c, w.active as int))->Ok_0;
    lemma_tail_bound(c, committed_end(s));
    lemma_tail_grows(c, committed_end(s));
    lemma_opened_is_sound(c, s, w);
}

} // verus!
