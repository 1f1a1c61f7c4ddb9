//! What was put reads back.
use vstd::prelude::*;
use vstd::string::*;

use crate::engine::format::{
    law_manifest_reads_back, lemma_digest_id, lemma_manifest_len, manifest_bytes, manifest_digest,
    object_id, total_len, ChunkRef, Error, Kind, ObjectId, MAX_MANIFEST_CHUNKS, MAX_PAYLOAD,
    RECORDS_START,
};
use crate::engine::laws::{
    entry_intact, full_index, lemma_append_settled,
    lemma_intact_stable, lemma_new_record, lemma_scan_extend, lemma_scan_intact, lemma_scan_stable,
    named_right, no_clash, payload_of, settled,
};
use crate::engine::log::{
    aligned, body_of, chunk_bytes, chunk_problem, indexed, joined, manifest_of,
    new_header, object_bytes, record_at, refs_of, refs_problem, Entry, Index, StoreView,
};
use crate::engine::objects::{
    chunks_span, law_room_is_found_before_writing, lemma_pieces, piece_count, piece_end, piece_ref,
    piece_refs, pieces, present_problem, put_object_outcome, put_object_problem, put_outcome,
    put_piece, put_pieces, room_problem,
};
use crate::engine::write::object_payload;
use crate::first::lemma_first_clear;

verus! {

/// Whether neither the log nor another of the pieces holds other bytes under the identifier
/// of a piece.
pub open spec fn pieces_clear(v: StoreView, c: Seq<u8>, parts: Seq<Seq<u8>>) -> bool {
    &&& forall|i: int|
        0 <= i < parts.len() ==> no_clash(
            v,
            c,
            Kind::Chunk,
            piece_ref(#[trigger] parts[i]).id,
            parts[i],
        )
    &&& forall|i: int, j: int|
        0 <= i < parts.len() && 0 <= j < parts.len() && piece_ref(#[trigger] parts[i]).id
            == piece_ref(#[trigger] parts[j]).id ==> parts[i] == parts[j]
}

/// A piece is named by its digest.
pub proof fn lemma_piece_named(piece: Seq<u8>)
    ensures
        named_right(Kind::Chunk, piece_ref(piece).id, piece),
{
    lemma_digest_id("cairn/chunk/v1\0".spec_bytes() + piece);
}

/// A manifest is named by its digest.
pub proof fn lemma_manifest_named(chunks: Seq<ChunkRef>)
    ensures
        named_right(
            Kind::Manifest,
            object_id(manifest_digest(manifest_bytes(chunks))),
            manifest_bytes(chunks),
        ),
{
    lemma_digest_id("cairn/manifest/v1\0".spec_bytes() + manifest_bytes(chunks));
}

/// The identifier of the object that the data makes in chunks of the given size.
pub open spec fn object_name(data: Seq<u8>, size: nat) -> ObjectId {
    object_id(manifest_digest(manifest_bytes(piece_refs(pieces(data, size)))))
}

/// Whether the log holds nothing else under the identifiers of the pieces and the manifest of
/// an object.
pub open spec fn object_clear(v: StoreView, c: Seq<u8>, data: Seq<u8>, size: nat) -> bool {
    let body = manifest_bytes(piece_refs(pieces(data, size)));
    &&& pieces_clear(v, c, pieces(data, size))
    &&& no_clash(v, c, Kind::Manifest, object_name(data, size), body)
}

/// Whether the object is indexed, with the given bytes.
pub open spec fn there(v: StoreView, c: Seq<u8>, kind: Kind, id: ObjectId, bytes: Seq<u8>) -> bool {
    &&& v.index.dom().contains(id)
    &&& v.index[id].kind == kind
    &&& v.index[id].len == 32 + bytes.len()
    &&& record_at(c, v.index[id].offset as int) matches Ok((_, payload)) && payload
        == object_payload(id@, bytes)
}

/// Whether every object that was indexed is, with the same record.
pub open spec fn kept(v: StoreView, c: Seq<u8>, w: StoreView, d: Seq<u8>) -> bool {
    forall|id: ObjectId| #[trigger]
        v.index.dom().contains(id) ==> w.index.dom().contains(id) && w.index[id] == v.index[id]
            && record_at(d, v.index[id].offset as int) == record_at(c, v.index[id].offset as int)
}

proof fn lemma_there_kept(
    v: StoreView,
    c: Seq<u8>,
    w: StoreView,
    d: Seq<u8>,
    kind: Kind,
    id: ObjectId,
    bytes: Seq<u8>,
)
    requires
        there(v, c, kind, id, bytes),
        kept(v, c, w, d),
    ensures
        there(w, d, kind, id, bytes),
{
    assert(v.index.dom().contains(id));
}

/// An object that is known is there with its bytes, where nothing clashes.
#[verifier::spinoff_prover]
pub proof fn lemma_known_there(v: StoreView, c: Seq<u8>, kind: Kind, id: ObjectId, bytes: Seq<u8>)
    requires
        settled(v, c),
        v.index.dom().contains(id),
        no_clash(v, c, kind, id, bytes),
    ensures
        there(v, c, kind, id, bytes),
{
    let full = full_index(v, c)->Ok_0;
    let at = v.append_offset as int;
    lemma_scan_intact(c, RECORDS_START as int, at, Map::empty());
    assert(entry_intact(c, id, v.index[id], at));
    assert(full.dom().contains(id));
    assert(entry_intact(c, id, full[id], at));
    assert(payload_of(c, full[id]) == object_payload(id@, bytes));
    assert(payload_of(c, v.index[id]) == object_payload(id@, bytes));
}

/// Storing one object.
#[verifier::spinoff_prover]
pub proof fn lemma_put_step(v: StoreView, c: Seq<u8>, kind: Kind, id: ObjectId, bytes: Seq<u8>)
    requires
        settled(v, c),
        named_right(kind, id, bytes),
        bytes.len() <= MAX_PAYLOAD - 32,
        no_clash(v, c, kind, id, bytes),
        put_outcome(v, c, kind, id, bytes).0 is Ok,
    ensures
        ({
            let (r, w, d) = put_outcome(v, c, kind, id, bytes);
            &&& r == Ok::<ObjectId, Error>(id)
            &&& settled(w, d)
            &&& kept(v, c, w, d)
            &&& there(w, d, kind, id, bytes)
            &&& w.requires_recovery == v.requires_recovery
        }),
{
    if v.index.dom().contains(id) {
        lemma_known_there(v, c, kind, id, bytes);
    } else {
        let payload = object_payload(id@, bytes);
        let header = new_header(kind, payload, 0);
        let (_, w, d) = put_outcome(v, c, kind, id, bytes);
        lemma_new_record(v, c, kind, id, bytes);
        assert(w.index =~= v.index.insert(
            id,
            Entry { offset: v.append_offset, kind, len: header.len },
        ));
        lemma_append_settled(v, c, w, d, id, header, payload);
        assert forall|other: ObjectId| #[trigger] v.index.dom().contains(other) implies
            w.index.dom().contains(other) && w.index[other] == v.index[other] && record_at(
            d,
            v.index[other].offset as int,
        ) == record_at(c, v.index[other].offset as int) by {}
    }
}

/// Storing one object makes no other clash.
#[verifier::spinoff_prover]
proof fn lemma_step_no_clash(
    v: StoreView,
    c: Seq<u8>,
    kind: Kind,
    id: ObjectId,
    bytes: Seq<u8>,
    other_kind: Kind,
    other: ObjectId,
    other_bytes: Seq<u8>,
)
    requires
        settled(v, c),
        named_right(kind, id, bytes),
        bytes.len() <= MAX_PAYLOAD - 32,
        put_outcome(v, c, kind, id, bytes).0 is Ok,
        no_clash(v, c, other_kind, other, other_bytes),
        other == id ==> other_kind == kind && other_bytes == bytes,
    ensures
        ({
            let (_, w, d) = put_outcome(v, c, kind, id, bytes);
            no_clash(w, d, other_kind, other, other_bytes)
        }),
{
    if !v.index.dom().contains(id) {
        let payload = object_payload(id@, bytes);
        let header = new_header(kind, payload, 0);
        let (_, w, d) = put_outcome(v, c, kind, id, bytes);
        let at = v.append_offset as int;
        let next = aligned(at + 32 + payload.len());
        let full = full_index(v, c)->Ok_0;
        lemma_new_record(v, c, kind, id, bytes);
        lemma_scan_stable(c, d, RECORDS_START as int, at, Map::empty());
        lemma_scan_extend(d, RECORDS_START as int, at, next, Map::empty());
        let larger = indexed(full, at as u64, header, payload);
        assert(full_index(w, d) == Ok::<Index, Error>(larger));
        lemma_scan_intact(c, RECORDS_START as int, at, Map::empty());
        lemma_intact_stable(c, d, full, at, next);
        if larger.dom().contains(other) {
            if full.dom().contains(other) {
                assert(larger[other] == full[other]);
                assert(record_at(d, full[other].offset as int) == record_at(
                    c,
                    full[other].offset as int,
                ));
            } else {
                assert(other == id);
            }
        }
    }
}

/// After one piece is stored, the others are as clear as before.
#[verifier::spinoff_prover]
pub proof fn lemma_rest_clear(v: StoreView, c: Seq<u8>, parts: Seq<Seq<u8>>)
    requires
        settled(v, c),
        pieces_clear(v, c, parts),
        parts.len() > 0,
        put_piece(v, c, parts[0]).0 is Ok,
    ensures
        pieces_clear(put_piece(v, c, parts[0]).1, put_piece(v, c, parts[0]).2, parts.drop_first()),
{
    let piece = parts[0];
    let id = piece_ref(piece).id;
    let rest = parts.drop_first();
    lemma_piece_named(piece);
    let (_, w, d) = put_piece(v, c, piece);
    assert forall|i: int| 0 <= i < rest.len() implies no_clash(
        w,
        d,
        Kind::Chunk,
        piece_ref(#[trigger] rest[i]).id,
        rest[i],
    ) by {
        assert(rest[i] == parts[i + 1]);
        let other = piece_ref(rest[i]).id;
        lemma_step_no_clash(v, c, Kind::Chunk, id, piece, Kind::Chunk, other, rest[i]);
    }
    assert forall|i: int, j: int|
        0 <= i < rest.len() && 0 <= j < rest.len() && piece_ref(#[trigger] rest[i]).id
            == piece_ref(#[trigger] rest[j]).id implies rest[i] == rest[j] by {
        assert(rest[i] == parts[i + 1]);
        assert(rest[j] == parts[j + 1]);
    }
}

/// Storing the pieces one after the other: each is there afterwards, and so is what was.
pub proof fn lemma_put_pieces(v: StoreView, c: Seq<u8>, parts: Seq<Seq<u8>>)
    requires
        settled(v, c),
        pieces_clear(v, c, parts),
        put_pieces(v, c, parts).0 is Ok,
    ensures
        ({
            let (_, w, d) = put_pieces(v, c, parts);
            &&& settled(w, d)
            &&& kept(v, c, w, d)
            &&& w.requires_recovery == v.requires_recovery
            &&& forall|i: int|
                0 <= i < parts.len() ==> there(
                    w,
                    d,
                    Kind::Chunk,
                    piece_ref(#[trigger] parts[i]).id,
                    parts[i],
                )
        }),
    decreases parts.len(),
{
    if parts.len() > 0 {
        let piece = parts[0];
        let id = piece_ref(piece).id;
        let rest = parts.drop_first();
        let (_, v1, c1) = put_piece(v, c, piece);
        let (_, w, d) = put_pieces(v, c, parts);
        lemma_piece_named(piece);
        lemma_put_step(v, c, Kind::Chunk, id, piece);
        lemma_rest_clear(v, c, parts);
        lemma_put_pieces(v1, c1, rest);
        lemma_there_kept(v1, c1, w, d, Kind::Chunk, id, piece);
        assert forall|i: int| 0 <= i < parts.len() implies there(
            w,
            d,
            Kind::Chunk,
            piece_ref(#[trigger] parts[i]).id,
            parts[i],
        ) by {
            if i > 0 {
                assert(rest[i - 1] == parts[i]);
            }
        }
    }
}

/// Storing the pieces makes no clash with a manifest of another identifier.
pub proof fn lemma_put_pieces_no_clash(
    v: StoreView,
    c: Seq<u8>,
    parts: Seq<Seq<u8>>,
    manifest: ObjectId,
    body: Seq<u8>,
)
    requires
        settled(v, c),
        pieces_clear(v, c, parts),
        put_pieces(v, c, parts).0 is Ok,
        no_clash(v, c, Kind::Manifest, manifest, body),
        forall|i: int| 0 <= i < parts.len() ==> piece_ref(#[trigger] parts[i]).id != manifest,
    ensures
        no_clash(
            put_pieces(v, c, parts).1,
            put_pieces(v, c, parts).2,
            Kind::Manifest,
            manifest,
            body,
        ),
    decreases parts.len(),
{
    if parts.len() > 0 {
        let piece = parts[0];
        let id = piece_ref(piece).id;
        let rest = parts.drop_first();
        let (_, v1, c1) = put_piece(v, c, piece);
        lemma_piece_named(piece);
        lemma_put_step(v, c, Kind::Chunk, id, piece);
        lemma_rest_clear(v, c, parts);
        lemma_step_no_clash(v, c, Kind::Chunk, id, piece, Kind::Manifest, manifest, body);
        assert forall|i: int| 0 <= i < rest.len() implies piece_ref(#[trigger] rest[i]).id
            != manifest by {
            assert(rest[i] == parts[i + 1]);
        }
        lemma_put_pieces_no_clash(v1, c1, rest, manifest, body);
    }
}

/// The pieces one after the other.
pub open spec fn concat(parts: Seq<Seq<u8>>) -> Seq<u8>
    decreases parts.len(),
{
    if parts.len() == 0 {
        Seq::empty()
    } else {
        concat(parts.drop_last()) + parts.last()
    }
}

/// The first pieces of the data are its front.
proof fn lemma_concat_front(data: Seq<u8>, size: nat, n: int)
    requires
        size > 0,
        0 <= n <= piece_count(data.len(), size),
    ensures
        concat(pieces(data, size).take(n)) == data.take(
            if n * size <= data.len() {
                n * size
            } else {
                data.len() as int
            },
        ),
    decreases n,
{
    let parts = pieces(data, size);
    if n == 0 {
        assert(parts.take(0) =~= Seq::empty());
        assert(data.take(0) =~= Seq::empty());
    } else {
        lemma_concat_front(data, size, n - 1);
        lemma_pieces(data.len(), size, n - 1);
        assert(parts.take(n).drop_last() =~= parts.take(n - 1));
        assert(parts.take(n).last() == parts[n - 1]);
        let end = piece_end(data.len(), size, n - 1);
        assert(data.take((n - 1) * size) + data.subrange((n - 1) * size, end) =~= data.take(end));
    }
}

/// The pieces of the data make it up, and there are as few as can be.
pub proof fn law_pieces_make_the_data(data: Seq<u8>, size: nat)
    requires
        size > 0,
    ensures
        concat(pieces(data, size)) == data,
        pieces(data, size).len() == (data.len() + size - 1) as nat / size,
        forall|i: int|
            0 <= i < pieces(data, size).len() - 1 ==> (#[trigger] pieces(data, size)[i]).len()
                == size,
        forall|i: int|
            0 <= i < pieces(data, size).len() ==> 0 < (#[trigger] pieces(data, size)[i]).len()
                <= size,
{
    let parts = pieces(data, size);
    let n = parts.len() as int;
    lemma_concat_front(data, size, n);
    assert(parts.take(n) =~= parts);
    assert(n * size >= data.len()) by (nonlinear_arith)
        requires
            n == (data.len() + size - 1) as nat / size,
            size > 0,
    ;
    assert(data.take(data.len() as int) =~= data);
    assert forall|i: int| 0 <= i < n implies 0 < (#[trigger] parts[i]).len() <= size by {
        lemma_pieces(data.len(), size, i);
    }
    assert forall|i: int| 0 <= i < n - 1 implies (#[trigger] parts[i]).len() == size by {
        lemma_pieces(data.len(), size, i);
        lemma_pieces(data.len(), size, i + 1);
        assert((i + 1) * size == i * size + size) by (nonlinear_arith);
    }
}

pub proof fn lemma_total_of_pieces(parts: Seq<Seq<u8>>)
    requires
        forall|i: int| 0 <= i < parts.len() ==> (#[trigger] parts[i]).len() <= u32::MAX,
    ensures
        total_len(piece_refs(parts)) == concat(parts).len(),
    decreases parts.len(),
{
    if parts.len() > 0 {
        let front = parts.drop_last();
        assert forall|i: int| 0 <= i < front.len() implies (#[trigger] front[i]).len()
            <= u32::MAX by {
            assert(front[i] == parts[i]);
        }
        lemma_total_of_pieces(front);
        assert(piece_refs(parts).drop_last() =~= piece_refs(front));
        assert(parts[parts.len() - 1].len() <= u32::MAX);
    }
}

/// A chunk that is there is read whole.
pub proof fn lemma_chunk_reads(v: StoreView, c: Seq<u8>, piece: Seq<u8>)
    requires
        there(v, c, Kind::Chunk, piece_ref(piece).id, piece),
        piece.len() <= u32::MAX - 32,
    ensures
        chunk_problem(v.index, c, piece_ref(piece)) is None,
        chunk_bytes(v.index, c, piece_ref(piece).id) == Ok::<Seq<u8>, Error>(piece),
{
    let id = piece_ref(piece).id;
    let payload = object_payload(id@, piece);
    lemma_piece_named(piece);
    assert(payload.take(32) =~= id@);
    assert(payload.skip(32) =~= piece);
}

/// Whether all the pieces are there.
pub open spec fn all_there(v: StoreView, c: Seq<u8>, parts: Seq<Seq<u8>>) -> bool {
    forall|i: int|
        0 <= i < parts.len() ==> there(
            v,
            c,
            Kind::Chunk,
            piece_ref(#[trigger] parts[i]).id,
            parts[i],
        ) && parts[i].len() <= u32::MAX - 32
}

proof fn lemma_pieces_join(v: StoreView, c: Seq<u8>, parts: Seq<Seq<u8>>)
    requires
        all_there(v, c, parts),
    ensures
        joined(v.index, c, piece_refs(parts)) == Ok::<Seq<u8>, Error>(concat(parts)),
    decreases parts.len(),
{
    if parts.len() > 0 {
        let front = parts.drop_last();
        assert(all_there(v, c, front)) by {
            assert forall|i: int| 0 <= i < front.len() implies there(
                v,
                c,
                Kind::Chunk,
                piece_ref(#[trigger] front[i]).id,
                front[i],
            ) && front[i].len() <= u32::MAX - 32 by {
                assert(front[i] == parts[i]);
            }
        }
        lemma_pieces_join(v, c, front);
        assert(piece_refs(parts).drop_last() =~= piece_refs(front));
        assert(parts[parts.len() - 1] == parts.last());
        lemma_chunk_reads(v, c, parts.last());
    }
}

/// The manifest of pieces that are there lists them, and reading it gives them back.
#[verifier::spinoff_prover]
pub proof fn lemma_object_reads(v: StoreView, c: Seq<u8>, parts: Seq<Seq<u8>>, manifest: ObjectId)
    requires
        all_there(v, c, parts),
        parts.len() <= MAX_MANIFEST_CHUNKS,
        there(v, c, Kind::Manifest, manifest, manifest_bytes(piece_refs(parts))),
        named_right(Kind::Manifest, manifest, manifest_bytes(piece_refs(parts))),
    ensures
        body_of(v.index, c, manifest) == Ok::<Seq<u8>, Error>(manifest_bytes(piece_refs(parts))),
        manifest_of(v.index, c, manifest) == Ok::<(u64, Seq<ChunkRef>), Error>(
            (concat(parts).len() as u64, piece_refs(parts)),
        ),
        concat(parts).len() <= isize::MAX ==> object_bytes(v.index, c, manifest) == Ok::<
            Seq<u8>,
            Error,
        >(concat(parts)),
{
    let refs = piece_refs(parts);
    let body = manifest_bytes(refs);
    let payload = object_payload(manifest@, body);
    lemma_manifest_len(refs);
    assert(payload.skip(32) =~= body);
    law_manifest_reads_back(refs);
    assert(refs_of(body, refs.len()) =~= refs);
    assert forall|i: int| 0 <= i < parts.len() implies (#[trigger] parts[i]).len()
        <= u32::MAX by {}
    lemma_total_of_pieces(parts);
    let find = |i: int| chunk_problem(v.index, c, refs[i]);
    assert forall|i: int| 0 <= i < refs.len() implies #[trigger] find(i) is None by {
        assert(refs[i] == piece_ref(parts[i]));
        lemma_chunk_reads(v, c, parts[i]);
    }
    lemma_first_clear(find, 0, refs.len() as int);
    assert(refs_problem(v.index, c, refs) is None);
    lemma_pieces_join(v, c, parts);
}

/// Pieces that went into the store are short enough to be in it.
proof fn lemma_pieces_short(v: StoreView, c: Seq<u8>, parts: Seq<Seq<u8>>, i: int)
    requires
        put_pieces(v, c, parts).0 is Ok,
        0 <= i < parts.len(),
    ensures
        parts[i].len() <= MAX_PAYLOAD - 32,
    decreases parts.len(),
{
    if i > 0 {
        let (_, w, d) = put_piece(v, c, parts[0]);
        lemma_pieces_short(w, d, parts.drop_first(), i - 1);
    }
}

/// A manifest that can be stored behind its pieces clashes with nothing.
pub proof fn lemma_manifest_clear(v: StoreView, c: Seq<u8>, data: Seq<u8>, size: nat)
    requires
        settled(v, c),
        object_clear(v, c, data, size),
        put_pieces(v, c, pieces(data, size)).0 is Ok,
        ({
            let (_, w, d) = put_pieces(v, c, pieces(data, size));
            let body = manifest_bytes(piece_refs(pieces(data, size)));
            put_outcome(w, d, Kind::Manifest, object_name(data, size), body).0 is Ok
        }),
    ensures
        ({
            let (_, w, d) = put_pieces(v, c, pieces(data, size));
            let body = manifest_bytes(piece_refs(pieces(data, size)));
            no_clash(w, d, Kind::Manifest, object_name(data, size), body)
        }),
{
    let parts = pieces(data, size);
    let body = manifest_bytes(piece_refs(parts));
    let manifest = object_name(data, size);
    let (_, w, d) = put_pieces(v, c, parts);
    lemma_put_pieces(v, c, parts);
    assert forall|i: int| 0 <= i < parts.len() implies piece_ref(#[trigger] parts[i]).id
        != manifest by {
        assert(there(w, d, Kind::Chunk, piece_ref(parts[i]).id, parts[i]));
    }
    lemma_put_pieces_no_clash(v, c, parts, manifest, body);
}

/// An object that was put is there: its pieces and its manifest.
#[verifier::spinoff_prover]
proof fn lemma_object_there(v: StoreView, c: Seq<u8>, data: Seq<u8>, size: nat)
    requires
        settled(v, c),
        object_clear(v, c, data, size),
        put_object_outcome(v, c, data, size).0 is Ok,
    ensures
        ({
            let (r, w, d) = put_object_outcome(v, c, data, size);
            &&& r == Ok::<ObjectId, Error>(object_name(data, size))
            &&& settled(w, d)
            &&& kept(v, c, w, d)
            &&& !w.requires_recovery
            &&& 0 < size
            &&& pieces(data, size).len() <= MAX_MANIFEST_CHUNKS
            &&& all_there(w, d, pieces(data, size))
            &&& there(
                w,
                d,
                Kind::Manifest,
                object_name(data, size),
                manifest_bytes(piece_refs(pieces(data, size))),
            )
        }),
{
    let parts = pieces(data, size);
    let refs = piece_refs(parts);
    let body = manifest_bytes(refs);
    let manifest = object_name(data, size);
    let (_, v1, c1) = put_pieces(v, c, parts);
    let (_, w, d) = put_object_outcome(v, c, data, size);
    lemma_put_pieces(v, c, parts);
    lemma_manifest_clear(v, c, data, size);
    lemma_manifest_len(refs);
    lemma_manifest_named(piece_refs(pieces(data, size)));
    lemma_put_step(v1, c1, Kind::Manifest, manifest, body);
    assert(kept(v, c, w, d)) by {
        assert forall|id: ObjectId| #[trigger] v.index.dom().contains(id) implies
            w.index.dom().contains(id) && w.index[id] == v.index[id] && record_at(
            d,
            v.index[id].offset as int,
        ) == record_at(c, v.index[id].offset as int) by {
            assert(v1.index.dom().contains(id));
        }
    }
    assert(all_there(w, d, parts)) by {
        assert forall|i: int| 0 <= i < parts.len() implies there(
            w,
            d,
            Kind::Chunk,
            piece_ref(#[trigger] parts[i]).id,
            parts[i],
        ) && parts[i].len() <= u32::MAX - 32 by {
            lemma_there_kept(v1, c1, w, d, Kind::Chunk, piece_ref(parts[i]).id, parts[i]);
            lemma_pieces_short(v, c, parts, i);
        }
    }
}

/// What was put reads back: after an object was stored in chunks of any size, the log is
/// settled, the manifest lists the chunks of the data, and reading the object gives the data.
/// Every chunk that was there before reads as it did.
pub proof fn law_put_object_reads_back(v: StoreView, c: Seq<u8>, data: Seq<u8>, size: nat)
    requires
        settled(v, c),
        object_clear(v, c, data, size),
        data.len() <= isize::MAX,
        put_object_outcome(v, c, data, size).0 is Ok,
    ensures
        ({
            let (r, w, d) = put_object_outcome(v, c, data, size);
            let id = object_name(data, size);
            &&& r == Ok::<ObjectId, Error>(id)
            &&& settled(w, d)
            &&& object_bytes(w.index, d, id) == Ok::<Seq<u8>, Error>(data)
            &&& manifest_of(w.index, d, id) == Ok::<(u64, Seq<ChunkRef>), Error>(
                (data.len() as u64, piece_refs(pieces(data, size))),
            )
            &&& forall|other: ObjectId| #[trigger]
                v.index.dom().contains(other) ==> chunk_bytes(w.index, d, other) == chunk_bytes(
                    v.index,
                    c,
                    other,
                )
        }),
{
    let (_, w, d) = put_object_outcome(v, c, data, size);
    lemma_object_there(v, c, data, size);
    lemma_manifest_named(piece_refs(pieces(data, size)));
    law_pieces_make_the_data(data, size);
    lemma_object_reads(w, d, pieces(data, size), object_name(data, size));
}

/// Chunks that are all known take no room.
proof fn lemma_no_span(known: Set<ObjectId>, parts: Seq<Seq<u8>>)
    requires
        forall|i: int| 0 <= i < parts.len() ==> known.contains(piece_ref(#[trigger] parts[i]).id),
    ensures
        chunks_span(known, parts) == 0,
    decreases parts.len(),
{
    if parts.len() > 0 {
        let rest = parts.drop_first();
        assert forall|i: int| 0 <= i < rest.len() implies known.contains(
            piece_ref(#[trigger] rest[i]).id,
        ) by {
            assert(rest[i] == parts[i + 1]);
        }
        assert(known.contains(piece_ref(parts[0]).id));
        lemma_no_span(known, rest);
    }
}

/// Storing pieces that are all there changes nothing.
proof fn lemma_put_pieces_again(v: StoreView, c: Seq<u8>, parts: Seq<Seq<u8>>)
    requires
        all_there(v, c, parts),
        !v.requires_recovery,
        forall|i: int| 0 <= i < parts.len() ==> (#[trigger] parts[i]).len() <= MAX_PAYLOAD - 32,
    ensures
        put_pieces(v, c, parts) == (Ok::<(), Error>(()), v, c),
    decreases parts.len(),
{
    if parts.len() > 0 {
        let rest = parts.drop_first();
        assert(all_there(v, c, rest)) by {
            assert forall|i: int| 0 <= i < rest.len() implies there(
                v,
                c,
                Kind::Chunk,
                piece_ref(#[trigger] rest[i]).id,
                rest[i],
            ) && rest[i].len() <= u32::MAX - 32 by {
                assert(rest[i] == parts[i + 1]);
            }
        }
        assert forall|i: int| 0 <= i < rest.len() implies (#[trigger] rest[i]).len() <= MAX_PAYLOAD
            - 32 by {
            assert(rest[i] == parts[i + 1]);
        }
        lemma_chunk_reads(v, c, parts[0]);
        lemma_put_pieces_again(v, c, rest);
    }
}

/// Putting an object again gives the same identifier and appends nothing.
pub proof fn law_put_object_again_changes_nothing(
    v: StoreView,
    c: Seq<u8>,
    data: Seq<u8>,
    size: nat,
)
    requires
        settled(v, c),
        object_clear(v, c, data, size),
        put_object_outcome(v, c, data, size).0 is Ok,
    ensures
        ({
            let (r, w, d) = put_object_outcome(v, c, data, size);
            put_object_outcome(w, d, data, size) == (r, w, d)
        }),
{
    let parts = pieces(data, size);
    let refs = piece_refs(parts);
    let manifest = object_name(data, size);
    let (r, w, d) = put_object_outcome(v, c, data, size);
    lemma_object_there(v, c, data, size);
    lemma_manifest_named(piece_refs(pieces(data, size)));
    lemma_object_reads(w, d, parts, manifest);
    law_manifest_reads_back(refs);
    assert forall|i: int| 0 <= i < parts.len() implies (#[trigger] parts[i]).len() <= MAX_PAYLOAD
        - 32 by {
        lemma_pieces_short(v, c, parts, i);
    }
    assert forall|i: int| 0 <= i < parts.len() implies w.index.dom().contains(
        piece_ref(#[trigger] parts[i]).id,
    ) by {}
    lemma_no_span(w.index.dom(), parts);
    let find = |i: int| present_problem(w.index, d, refs[i]);
    assert forall|i: int| 0 <= i < refs.len() implies #[trigger] find(i) is None by {
        assert(refs[i] == piece_ref(parts[i]));
        lemma_chunk_reads(w, d, parts[i]);
    }
    lemma_first_clear(find, 0, refs.len() as int);
    assert(room_problem(w, d, refs, manifest, w.append_offset as int) is None);
    assert(put_object_problem(w, d, data, size) is None);
    lemma_put_pieces_again(w, d, parts);
}

/// An object that there is no room for changes nothing.
pub proof fn law_no_room_changes_nothing(v: StoreView, c: Seq<u8>, data: Seq<u8>, size: nat)
    requires
        v.append_offset % 8 == 0,
        c.len() <= u64::MAX,
        put_object_outcome(v, c, data, size).0 == Err::<ObjectId, Error>(Error::Capacity),
    ensures
        put_object_outcome(v, c, data, size) == (Err::<ObjectId, Error>(Error::Capacity), v, c),
{
    if put_object_problem(v, c, data, size) is None {
        law_room_is_found_before_writing(v, c, data, size);
    }
}

} // verus!
