//! What the object store owes to its callers: what is taken in, what is refused, and why.
use vstd::prelude::*;
use vstd::string::*;

use crate::bytes::{le_bytes, le_value, lemma_le_bytes_len, zeros};
use crate::device::block::BlockDevice;
use crate::engine::commit::{commit_problem, commit_right, committed_view, new_super, root_payload};
use crate::engine::format::{
    chunk_digest, header_base, header_bytes, header_of, law_manifest_reads_back,
    law_super_reads_back, lemma_digest_id, lemma_header_len, lemma_manifest_len, lemma_object_id,
    manifest_bytes, manifest_digest, record_digest, refs_bytes, super_bytes, super_of, total_len,
    ChunkRef, Error, Header, Kind, ObjectId, Root, Super,
};
use crate::engine::laws::settled;
use crate::engine::log::{
    after_append, append_problem, body_of, candidate_valid, chunk_bytes, chunk_problem, load,
    manifest_of, new_header, object_bytes, open_outcome, record_at, Entry, Index, StoreView,
};
use crate::engine::objects::{
    chunks_span, lemma_span_positive, piece_ref, piece_refs, pieces, present_problem,
    put_object_outcome, put_object_problem, put_object_right, put_outcome, put_piece, put_pieces,
    room_problem, span,
};
use crate::engine::readback::{
    concat, law_pieces_make_the_data, law_put_object_reads_back, lemma_chunk_reads,
    lemma_known_there, lemma_manifest_named, lemma_piece_named, lemma_put_pieces,
    lemma_put_pieces_no_clash, lemma_put_step, lemma_rest_clear, lemma_total_of_pieces,
    object_clear, object_name, pieces_clear, there,
};
use crate::engine::store::{open_right, Store};
use crate::engine::write::{object_payload, put_bytes_right, put_manifest_right};
use crate::first::{lemma_first_clear, lemma_first_none};
use crate::hashing::blake3_digest;

verus! {

/// A record of at most sixty-four mebibytes is appended where it fits: behind its thirty-two
/// bytes of header, up to the next multiple of eight.
pub proof fn law_records_are_appended(at: u64, capacity: nat, len: nat)
    requires
        at % 8 == 0,
        capacity <= 0xffff_ffff_ffff_ffff,
    ensures
        len <= 67_108_864 && at + len + 39 <= capacity ==> append_problem(at, capacity, len) is None,
        len <= 67_108_864 && at + len + 32 > capacity ==> append_problem(at, capacity, len) is Some,
        len > 67_108_864 ==> append_problem(at, capacity, len) == Some(
            Error::InvalidInput("payload too large"),
        ),
        append_problem(at, capacity, len) is None ==> at + 32 + len <= capacity,
{
}

/// A record that was appended moves the end of the log on, to the next multiple of eight, and
/// changes nothing else but the index; a root is not indexed, another object under its
/// identifier once.
pub proof fn law_appending_moves_the_end(
    v: StoreView,
    kind: Kind,
    id: ObjectId,
    bytes: Seq<u8>,
    generation: u64,
)
    requires
        v.append_offset + 71 + bytes.len() <= u64::MAX,
        bytes.len() <= 67_108_832,
    ensures
        ({
            let w = after_append(v, kind, object_payload(id@, bytes), generation);
            &&& w.append_offset % 8 == 0
            &&& v.append_offset + 64 + bytes.len() <= w.append_offset
            &&& w.append_offset < v.append_offset + 72 + bytes.len()
            &&& w.root == v.root
            &&& w.active == v.active
            &&& w.requires_recovery == v.requires_recovery
            &&& kind == Kind::Root || v.index.dom().contains(id) ==> w.index == v.index
            &&& kind != Kind::Root && !v.index.dom().contains(id) ==> w.index == v.index.insert(
                id,
                Entry { offset: v.append_offset, kind, len: (32 + bytes.len()) as u32 },
            )
        }),
{
    let payload = object_payload(id@, bytes);
    assert(payload.len() == 32 + bytes.len());
    assert(payload.take(32) =~= id@);
    lemma_object_id(id);
}

/// An identifier is the digest of the bytes that it stands for, with what kind they are.
pub proof fn law_identifiers_are_digests(data: Seq<u8>, chunks: Seq<ChunkRef>, entry: ChunkRef)
    ensures
        chunk_digest(data) == blake3_digest("cairn/chunk/v1\0".spec_bytes() + data)@,
        manifest_digest(data) == blake3_digest("cairn/manifest/v1\0".spec_bytes() + data)@,
        piece_ref(data).id@ == chunk_digest(data),
        data.len() <= u32::MAX ==> piece_ref(data).len == data.len(),
        manifest_bytes(chunks).take(16) == le_bytes(1, 2) + le_bytes(0, 2) + le_bytes(
            chunks.len(),
            4,
        ) + le_bytes(total_len(chunks), 8),
        manifest_bytes(chunks.push(entry)).skip(16) == manifest_bytes(chunks).skip(16) + entry.id@
            + le_bytes(entry.len as nat, 4),
        total_len(chunks.push(entry)) == total_len(chunks) + entry.len,
        total_len(Seq::<ChunkRef>::empty()) == 0,
{
    lemma_piece_named(data);
    lemma_le_bytes_len(1, 2);
    lemma_le_bytes_len(0, 2);
    lemma_le_bytes_len(chunks.len(), 4);
    lemma_le_bytes_len(total_len(chunks), 8);
    let more = chunks.push(entry);
    lemma_le_bytes_len(more.len(), 4);
    lemma_le_bytes_len(total_len(more), 8);
    assert(more.drop_last() =~= chunks);
    let head = le_bytes(1, 2) + le_bytes(0, 2) + le_bytes(chunks.len(), 4) + le_bytes(
        total_len(chunks),
        8,
    );
    assert(head.len() == 16);
    assert(manifest_bytes(chunks).take(16) =~= head);
    assert(manifest_bytes(chunks).skip(16) =~= refs_bytes(chunks));
    assert(manifest_bytes(more).skip(16) =~= refs_bytes(more));
    assert(refs_bytes(more) =~= refs_bytes(chunks)
        + entry.id@ + le_bytes(entry.len as nat, 4));
}

/// A chunk of up to sixty-four mebibytes, less the thirty-two bytes of its identifier, that is
/// not there is stored where it fits, under the digest of its bytes; a larger one is refused.
pub proof fn law_chunks_are_stored(v: StoreView, c: Seq<u8>, data: Seq<u8>)
    requires
        v.append_offset % 8 == 0,
        c.len() <= u64::MAX,
    ensures
        v.requires_recovery ==> put_piece(v, c, data) == (
            Err::<ObjectId, Error>(Error::RequiresRecovery),
            v,
            c,
        ),
        !v.requires_recovery && data.len() > 67_108_832 ==> put_piece(v, c, data) == (
            Err::<ObjectId, Error>(Error::InvalidInput("object too large")),
            v,
            c,
        ),
        !v.requires_recovery && data.len() <= 67_108_832 && !v.index.dom().contains(
            piece_ref(data).id,
        ) && v.append_offset + data.len() + 71 <= c.len() ==> {
            let (r, w, d) = put_piece(v, c, data);
            let id = piece_ref(data).id;
            &&& r == Ok::<ObjectId, Error>(id)
            &&& id@ == blake3_digest("cairn/chunk/v1\0".spec_bytes() + data)@
            &&& !w.requires_recovery
            &&& w.root == v.root
            &&& w.append_offset <= v.append_offset + data.len() + 71
            &&& w.index == v.index.insert(
                id,
                Entry {
                    offset: v.append_offset,
                    kind: Kind::Chunk,
                    len: (32 + data.len()) as u32,
                },
            )
            &&& d.len() == c.len()
            &&& d.subrange(v.append_offset + 32, v.append_offset + 64 + data.len()) == id@ + data
            &&& d.take(v.append_offset as int) == c.take(v.append_offset as int)
        },
        !v.requires_recovery && data.len() <= 67_108_832 && !v.index.dom().contains(
            piece_ref(data).id,
        ) && c.len() < v.append_offset + data.len() + 64 && v.append_offset + data.len() + 71
            <= 0xffff_ffff_ffff_ffff ==> put_piece(v, c, data) == (
            Err::<ObjectId, Error>(Error::Capacity),
            v,
            c,
        ),
{
    let id = piece_ref(data).id;
    let payload = object_payload(id@, data);
    lemma_piece_named(data);
    assert(payload.len() == 32 + data.len());
    if !v.requires_recovery && data.len() <= 67_108_832 && !v.index.dom().contains(id)
        && v.append_offset + data.len() + 71 <= c.len() {
        let (r, w, d) = put_piece(v, c, data);
        law_records_are_appended(v.append_offset, c.len(), payload.len());
        law_appending_moves_the_end(v, Kind::Chunk, id, data, 0);
        lemma_header_len(new_header(Kind::Chunk, payload, 0));
        assert(d.subrange(v.append_offset + 32, v.append_offset + 64 + data.len()) =~= payload);
        assert(d.take(v.append_offset as int) =~= c.take(v.append_offset as int));
    }
}

/// How many bytes the pieces take at most.
spec fn weight(parts: Seq<Seq<u8>>) -> int
    decreases parts.len(),
{
    if parts.len() == 0 {
        0
    } else {
        parts[0].len() + 71 + weight(parts.drop_first())
    }
}

proof fn lemma_weight_positive(parts: Seq<Seq<u8>>)
    ensures
        weight(parts) >= 0,
    decreases parts.len(),
{
    if parts.len() > 0 {
        lemma_weight_positive(parts.drop_first());
    }
}

proof fn lemma_weight_push(parts: Seq<Seq<u8>>, part: Seq<u8>)
    ensures
        weight(parts.push(part)) == weight(parts) + part.len() + 71,
    decreases parts.len(),
{
    let more = parts.push(part);
    if parts.len() == 0 {
        assert(more.drop_first() =~= parts);
    } else {
        assert(more.drop_first() =~= parts.drop_first().push(part));
        lemma_weight_push(parts.drop_first(), part);
    }
}

proof fn lemma_weight_of(parts: Seq<Seq<u8>>)
    ensures
        weight(parts) == concat(parts).len() + 71 * parts.len(),
    decreases parts.len(),
{
    if parts.len() > 0 {
        lemma_weight_of(parts.drop_last());
        lemma_weight_push(parts.drop_last(), parts.last());
        assert(parts.drop_last().push(parts.last()) =~= parts);
    }
}

proof fn lemma_span_within(known: Set<ObjectId>, parts: Seq<Seq<u8>>)
    ensures
        chunks_span(known, parts) <= weight(parts),
    decreases parts.len(),
{
    if parts.len() > 0 {
        let id = piece_ref(parts[0]).id;
        lemma_span_within(known, parts.drop_first());
        lemma_span_within(known.insert(id), parts.drop_first());
    }
}

/// Pieces that clash with nothing and that there is room for are all stored.
proof fn lemma_pieces_stored(v: StoreView, c: Seq<u8>, parts: Seq<Seq<u8>>)
    requires
        settled(v, c),
        !v.requires_recovery,
        pieces_clear(v, c, parts),
        forall|i: int| 0 <= i < parts.len() ==> (#[trigger] parts[i]).len() <= 67_108_832,
        v.append_offset + weight(parts) <= c.len(),
    ensures
        ({
            let (r, w, d) = put_pieces(v, c, parts);
            &&& r is Ok
            &&& w.append_offset <= v.append_offset + weight(parts)
            &&& d.len() == c.len()
            &&& w.root == v.root
        }),
    decreases parts.len(),
{
    if parts.len() > 0 {
        let piece = parts[0];
        let id = piece_ref(piece).id;
        let rest = parts.drop_first();
        lemma_weight_positive(rest);
        lemma_piece_named(piece);
        if v.index.dom().contains(id) {
            lemma_known_there(v, c, Kind::Chunk, id, piece);
            lemma_chunk_reads(v, c, piece);
        } else {
            law_chunks_are_stored(v, c, piece);
        }
        let (r, v1, c1) = put_piece(v, c, piece);
        assert(r is Ok);
        lemma_put_step(v, c, Kind::Chunk, id, piece);
        lemma_rest_clear(v, c, parts);
        assert forall|i: int| 0 <= i < rest.len() implies (#[trigger] rest[i]).len()
            <= 67_108_832 by {
            assert(rest[i] == parts[i + 1]);
        }
        lemma_pieces_stored(v1, c1, rest);
    }
}

/// An object is stored where there is room for it, whatever its size: with chunks of one byte
/// up to the largest a record can hold, at most one million eight hundred and sixty-four
/// thousand one hundred and thirty-three of them, and a hundred and seven bytes for each
/// besides the data. What was stored reads back.
#[verifier::spinoff_prover]
#[verifier::rlimit(40)]
pub proof fn law_objects_with_room_are_stored(v: StoreView, c: Seq<u8>, data: Seq<u8>, size: nat)
    requires
        settled(v, c),
        !v.requires_recovery,
        object_clear(v, c, data, size),
        forall|i: int|
            0 <= i < pieces(data, size).len() ==> piece_ref(#[trigger] pieces(data, size)[i]).id
                != object_name(data, size),
        0 < size <= 67_108_832,
        (data.len() + size - 1) as nat / size <= 1_864_133,
        v.append_offset + data.len() + 107 * ((data.len() + size - 1) as nat / size) + 151
            <= c.len(),
        data.len() <= isize::MAX,
    ensures
        ({
            let (r, w, d) = put_object_outcome(v, c, data, size);
            let id = object_name(data, size);
            &&& r == Ok::<ObjectId, Error>(id)
            &&& object_bytes(w.index, d, id) == Ok::<Seq<u8>, Error>(data)
            &&& w.root == v.root
            &&& !w.requires_recovery
            &&& settled(w, d)
        }),
{
    let parts = pieces(data, size);
    let refs = piece_refs(parts);
    let body = manifest_bytes(refs);
    let id = object_name(data, size);
    law_pieces_make_the_data(data, size);
    lemma_weight_of(parts);
    lemma_span_within(v.index.dom(), parts);
    lemma_span_positive(v.index.dom(), parts);
    lemma_manifest_len(refs);
    lemma_manifest_named(refs);
    law_manifest_reads_back(refs);
    if v.index.dom().contains(id) {
        lemma_known_there(v, c, Kind::Manifest, id, body);
        assert(object_payload(id@, body).skip(32) =~= body);
        assert(body_of(v.index, c, id) == Ok::<Seq<u8>, Error>(body));
    }
    let find = |i: int| present_problem(v.index, c, refs[i]);
    assert forall|i: int| 0 <= i < refs.len() implies #[trigger] find(i) is None by {
        assert(refs[i] == piece_ref(parts[i]));
        assert(parts[i].len() <= size);
        if v.index.dom().contains(refs[i].id) {
            lemma_known_there(v, c, Kind::Chunk, piece_ref(parts[i]).id, parts[i]);
            lemma_chunk_reads(v, c, parts[i]);
        }
    }
    lemma_first_clear(find, 0, refs.len() as int);
    let need = chunks_span(v.index.dom(), parts);
    assert(span((16 + 36 * refs.len()) as nat) <= 16 + 36 * refs.len() + 71);
    assert(room_problem(v, c, refs, id, v.append_offset + need) is None);
    assert(put_object_problem(v, c, data, size) is None);
    lemma_pieces_stored(v, c, parts);
    lemma_put_pieces(v, c, parts);
    lemma_put_pieces_no_clash(v, c, parts, id, body);
    let (_, w, d) = put_pieces(v, c, parts);
    if w.index.dom().contains(id) {
        lemma_known_there(w, d, Kind::Manifest, id, body);
        assert(object_payload(id@, body).skip(32) =~= body);
        assert(body_of(w.index, d, id) == Ok::<Seq<u8>, Error>(body));
    } else {
        assert(object_payload(id@, body).len() == 48 + 36 * refs.len());
        law_records_are_appended(w.append_offset, d.len(), object_payload(id@, body).len());
    }
    assert(put_outcome(w, d, Kind::Manifest, id, body).0 is Ok);
    lemma_put_step(w, d, Kind::Manifest, id, body);
    law_put_object_reads_back(v, c, data, size);
}

/// Why an object is refused: the store needs recovery, or the size of its chunks is nothing,
/// too large for a manifest, or so small that there are too many. Nothing has changed then.
pub proof fn law_objects_are_refused(v: StoreView, c: Seq<u8>, data: Seq<u8>, size: nat)
    ensures
        v.requires_recovery ==> put_object_outcome(v, c, data, size) == (
            Err::<ObjectId, Error>(Error::RequiresRecovery),
            v,
            c,
        ),
        !v.requires_recovery && size == 0 ==> put_object_outcome(v, c, data, size) == (
            Err::<ObjectId, Error>(Error::InvalidInput("chunk size must be non-zero")),
            v,
            c,
        ),
        !v.requires_recovery && size > 0xffff_ffff ==> put_object_outcome(v, c, data, size) == (
            Err::<ObjectId, Error>(Error::InvalidInput("chunk size exceeds manifest limit")),
            v,
            c,
        ),
        !v.requires_recovery && 0 < size <= 0xffff_ffff && (data.len() + size - 1) as nat / size
            > 1_864_133 ==> put_object_outcome(v, c, data, size) == (
            Err::<ObjectId, Error>(Error::InvalidInput("manifest too large")),
            v,
            c,
        ),
{
    if size > 0 {
        law_pieces_make_the_data(data, size);
    }
}

/// What was stored can be committed under any larger generation, where the root still fits.
pub proof fn law_stored_objects_can_be_committed(
    v: StoreView,
    c: Seq<u8>,
    data: Seq<u8>,
    size: nat,
    generation: u64,
)
    requires
        settled(v, c),
        object_clear(v, c, data, size),
        data.len() <= isize::MAX,
        put_object_outcome(v, c, data, size).0 is Ok,
        !put_object_outcome(v, c, data, size).1.requires_recovery,
        generation > 0,
        put_object_outcome(v, c, data, size).1.root matches Some(root) ==> root.generation
            < generation,
    ensures
        ({
            let (_, w, d) = put_object_outcome(v, c, data, size);
            commit_problem(w, d, object_name(data, size), generation) is None
        }),
{
    let (_, w, d) = put_object_outcome(v, c, data, size);
    let id = object_name(data, size);
    let parts = pieces(data, size);
    law_put_object_reads_back(v, c, data, size);
    assert(put_object_problem(v, c, data, size) is None);
    law_pieces_make_the_data(data, size);
    assert forall|i: int| 0 <= i < parts.len() implies (#[trigger] parts[i]).len() <= u32::MAX by {}
    lemma_total_of_pieces(parts);
    assert(body_of(w.index, d, id) is Ok);
}

/// Why a root is not committed: the store needs recovery, the generation is zero or not larger
/// than the last, or the manifest is not there.
pub proof fn law_commits_are_refused(
    v: StoreView,
    c: Seq<u8>,
    manifest: ObjectId,
    generation: u64,
)
    ensures
        v.requires_recovery ==> commit_problem(v, c, manifest, generation) == Some(
            Error::RequiresRecovery,
        ),
        !v.requires_recovery && generation == 0 ==> commit_problem(v, c, manifest, generation)
            == Some(Error::InvalidInput("root generation must be non-zero")),
        !v.requires_recovery && generation > 0 && (!v.index.dom().contains(manifest)
            || v.index[manifest].kind != Kind::Manifest) ==> commit_problem(
            v,
            c,
            manifest,
            generation,
        ) == Some(Error::NotFound(manifest)),
        !v.requires_recovery && generation > 0 && v.index.dom().contains(manifest)
            && v.index[manifest].kind == Kind::Manifest && v.root is Some && v.root->0.generation
            >= generation ==> commit_problem(v, c, manifest, generation) == Some(
            Error::InvalidInput("root generation must increase"),
        ),
{
}

/// A committed root is the one that was asked for; the other superblock is in use, and the log
/// has grown by one record of seventy-two bytes.
pub proof fn law_commits_take_effect(v: StoreView, manifest: ObjectId, generation: u64)
    requires
        v.append_offset % 8 == 0,
        v.append_offset + 79 <= u64::MAX,
        v.active <= 1,
    ensures
        ({
            let w = committed_view(v, manifest, generation);
            &&& w.root == Some(Root { generation, manifest })
            &&& w.active + v.active == 1
            &&& w.append_offset == v.append_offset + 72
            &&& w.index == v.index
            &&& w.requires_recovery == v.requires_recovery
        }),
        ({
            let s = new_super(v, manifest, generation);
            &&& s.generation == generation
            &&& s.manifest == manifest
            &&& s.root_offset == v.append_offset
            &&& s.root_len == 72
            &&& s.root_digest@ == record_digest(
                Kind::Root,
                generation,
                manifest@ + le_bytes(generation as nat, 8),
            )
        }),
{
    lemma_le_bytes_len(generation as nat, 8);
    let payload = root_payload(manifest, generation);
    assert(payload.len() == 40);
    lemma_digest_id(
        header_base(Kind::Root, payload.len(), generation) + payload,
    );
}

/// A record is read where it stands: within the log, at a multiple of eight, with a header that
/// is right and a checksum that is that of its kind, generation and bytes.
pub proof fn law_records_are_read(c: Seq<u8>, at: int, header: Header, payload: Seq<u8>)
    requires
        at % 8 == 0,
        8192 <= at,
        at + 32 + payload.len() <= c.len(),
        header_of(c.subrange(at, at + 32)) == Ok::<Header, Error>(header),
        header.len == payload.len(),
        c.subrange(at + 32, at + 32 + payload.len()) == payload,
        header.checksum == le_value(
            record_digest(header.kind, header.generation, payload).take(8),
        ),
    ensures
        record_at(c, at) == Ok::<(Header, Seq<u8>), Error>((header, payload)),
{
}

/// A record with another checksum is not read, nor one outside the log.
pub proof fn law_damaged_records_are_not_read(c: Seq<u8>, at: int, header: Header)
    ensures
        at % 8 != 0 || at < 8192 || at + 32 > c.len() ==> record_at(c, at) is Err,
        at >= 0 && at + 32 <= c.len() && header_of(c.subrange(at, at + 32)) == Ok::<Header, Error>(
            header,
        ) && at + 32 + header.len <= c.len() && header.checksum != le_value(
            record_digest(
                header.kind,
                header.generation,
                c.subrange(at + 32, at + 32 + header.len),
            ).take(8),
        ) ==> record_at(c, at) is Err,
        at >= 0 && at + 32 <= c.len() && header_of(c.subrange(at, at + 32)) is Err ==> record_at(
            c,
            at,
        ) is Err,
{
}

/// A chunk is read from its record where the record holds the identifier and bytes that have
/// it; what is not known is not found.
pub proof fn law_chunks_are_read(
    v: StoreView,
    c: Seq<u8>,
    id: ObjectId,
    data: Seq<u8>,
    header: Header,
)
    ensures
        v.index.dom().contains(id) && v.index[id].kind == Kind::Chunk && v.index[id].len >= 32
            && record_at(c, v.index[id].offset as int) == Ok::<(Header, Seq<u8>), Error>(
            (header, id@ + data),
        ) && id@ == blake3_digest("cairn/chunk/v1\0".spec_bytes() + data)@ ==> chunk_bytes(
            v.index,
            c,
            id,
        ) == Ok::<Seq<u8>, Error>(data),
        !v.index.dom().contains(id) ==> chunk_bytes(v.index, c, id) == Err::<Seq<u8>, Error>(
            Error::NotFound(id),
        ),
        !v.index.dom().contains(id) ==> object_bytes(v.index, c, id) == Err::<Seq<u8>, Error>(
            Error::NotFound(id),
        ),
        v.index.dom().contains(id) && v.index[id].kind == Kind::Chunk ==> object_bytes(
            v.index,
            c,
            id,
        ) == Err::<Seq<u8>, Error>(Error::WrongObjectKind("manifest")),
        chunk_bytes(v.index, c, id) matches Ok(bytes) ==> id@ == blake3_digest(
            "cairn/chunk/v1\0".spec_bytes() + bytes,
        )@,
{
    assert((id@ + data).take(32) =~= id@);
    assert((id@ + data).skip(32) =~= data);
}

/// How a header is written, and which are read: with the mark and the version of the format, a
/// known kind, at most sixty-four mebibytes, and nothing in what is set aside.
pub proof fn law_headers(header: Header, bytes: Seq<u8>)
    ensures
        header_bytes(header) == le_bytes(0x4341_4952, 4) + le_bytes(2, 2) + le_bytes(
            match header.kind {
                Kind::Chunk => 1,
                Kind::Manifest => 2,
                Kind::Root => 4,
            },
            2,
        ) + le_bytes(header.len as nat, 4) + le_bytes(header.generation as nat, 8) + le_bytes(
            header.checksum as nat,
            8,
        ) + zeros(4),
        bytes.len() == 32 ==> (header_of(bytes) is Ok <==> le_value(bytes.subrange(0, 4))
            == 0x4341_4952 && le_value(bytes.subrange(4, 6)) == 2 && bytes.subrange(28, 32)
            == zeros(4) && le_value(bytes.subrange(8, 12)) <= 67_108_864 && (le_value(
            bytes.subrange(6, 8),
        ) == 1 || le_value(bytes.subrange(6, 8)) == 2 || le_value(bytes.subrange(6, 8)) == 4)),
{
}

/// How a superblock is written: the mark and the version of the format, the generation, where
/// the root is, the manifest, the digest of the root, and the digest of all that.
pub proof fn law_superblocks(s: Super)
    ensures
        ({
            let body = le_bytes(0x4341_5350, 4) + le_bytes(2, 2) + zeros(2) + le_bytes(
                s.generation as nat,
                8,
            ) + le_bytes(s.root_offset as nat, 8) + le_bytes(s.root_len as nat, 4) + s.manifest@
                + s.root_digest@ + zeros(4);
            super_bytes(s) == body + blake3_digest(body)@
        }),
{
}

/// A device that was just formatted opens as an empty store without a root, and one with
/// nothing but zeros in its superblocks is unformatted.
pub proof fn law_formatted_devices_open(c: Seq<u8>, s: Super)
    requires
        c.len() >= 8224,
        s.generation == 0,
        s.root_offset == 0,
        s.root_len == 0,
        c.subrange(8192, 8224) == zeros(32),
    ensures
        open_outcome(c, Ok(super_bytes(s)), Ok(super_bytes(s))) == Ok::<StoreView, Error>(
            StoreView {
                index: Map::empty(),
                root: None,
                append_offset: 8192,
                active: 0,
                requires_recovery: false,
            },
        ),
        open_outcome(c, Ok(zeros(128)), Ok(zeros(128))) == Err::<StoreView, Error>(
            Error::Unformatted,
        ),
{
    law_super_reads_back(s);
}

/// On a device that can be relied on, a chunk that is not there and that there is room for is
/// stored; nothing fails but for what the store itself finds.
pub proof fn law_reliable_devices_store_chunks<D: BlockDevice>(
    before: Store<D>,
    after: Store<D>,
    data: Seq<u8>,
    r: Result<ObjectId, Error>,
)
    requires
        put_bytes_right(before, after, data, r),
        before.device.reliable(),
        !before@.requires_recovery,
        before@.append_offset % 8 == 0,
        before.device.contents().len() <= u64::MAX,
        data.len() <= 67_108_832,
        !before@.index.dom().contains(piece_ref(data).id),
        before@.append_offset + data.len() + 71 <= before.device.contents().len(),
    ensures
        r == Ok::<ObjectId, Error>(piece_ref(data).id),
        after@.index.dom() == before@.index.dom().insert(piece_ref(data).id),
        after@.root == before@.root,
        !after@.requires_recovery,
        after.device.contents().subrange(
            before@.append_offset + 64,
            before@.append_offset + 64 + data.len(),
        ) == data,
{
    let id = piece_ref(data).id;
    let c = before.device.contents();
    let at = before@.append_offset;
    let payload = object_payload(id@, data);
    assert(payload.len() == 32 + data.len());
    law_records_are_appended(at, c.len(), payload.len());
    law_appending_moves_the_end(before@, Kind::Chunk, id, data, 0);
    lemma_header_len(new_header(Kind::Chunk, payload, 0));
    assert(after.device.contents().subrange(at + 64, at + 64 + data.len()) =~= data);
    assert(after@.index.dom() =~= before@.index.dom().insert(id));
}

/// What is refused is refused alike on any device, with nothing changed.
pub proof fn law_any_device_refuses<D: BlockDevice>(
    before: Store<D>,
    after: Store<D>,
    data: Seq<u8>,
    r: Result<ObjectId, Error>,
)
    requires
        put_bytes_right(before, after, data, r),
    ensures
        before@.requires_recovery ==> r == Err::<ObjectId, Error>(Error::RequiresRecovery) && after@
            == before@ && after.device.contents() == before.device.contents(),
        !before@.requires_recovery && data.len() > 67_108_832 ==> r == Err::<ObjectId, Error>(
            Error::InvalidInput("object too large"),
        ) && after@ == before@ && after.device.contents() == before.device.contents(),
{
}

/// On a device that can be relied on, an object that there is room for is stored and reads
/// back.
pub proof fn law_reliable_devices_store_objects<D: BlockDevice>(
    before: Store<D>,
    after: Store<D>,
    data: Seq<u8>,
    size: nat,
    r: Result<ObjectId, Error>,
)
    requires
        put_object_right(before, after, data, size, r),
        before.device.reliable(),
        settled(before@, before.device.contents()),
        !before@.requires_recovery,
        object_clear(before@, before.device.contents(), data, size),
        forall|i: int|
            0 <= i < pieces(data, size).len() ==> piece_ref(#[trigger] pieces(data, size)[i]).id
                != object_name(data, size),
        0 < size <= 67_108_832,
        (data.len() + size - 1) as nat / size <= 1_864_133,
        before@.append_offset + data.len() + 107 * ((data.len() + size - 1) as nat / size) + 151
            <= before.device.contents().len(),
        data.len() <= isize::MAX,
    ensures
        r == Ok::<ObjectId, Error>(object_name(data, size)),
        object_bytes(after@.index, after.device.contents(), object_name(data, size)) == Ok::<
            Seq<u8>,
            Error,
        >(data),
        after@.root == before@.root,
{
    law_objects_with_room_are_stored(before@, before.device.contents(), data, size);
}

/// On a device that can be relied on, a root is committed where nothing is against it and it
/// fits.
pub proof fn law_reliable_devices_commit<D: BlockDevice>(
    before: Store<D>,
    after: Store<D>,
    manifest: ObjectId,
    generation: u64,
    r: Result<Root, Error>,
)
    requires
        commit_right(before, after, manifest, generation, r),
        before.device.reliable(),
        commit_problem(before@, before.device.contents(), manifest, generation) is None,
        before@.append_offset % 8 == 0,
        before@.append_offset + 79 <= before.device.contents().len() <= u64::MAX,
    ensures
        r == Ok::<Root, Error>(Root { generation, manifest }),
        after@.root == Some(Root { generation, manifest }),
        after@.index == before@.index,
{
    law_records_are_appended(before@.append_offset, before.device.contents().len(), 40);
    lemma_le_bytes_len(generation as nat, 8);
    assert(root_payload(manifest, generation).len() == 40);
}

/// On a device that can be relied on, opening comes to what the two superblocks lead to.
pub proof fn law_reliable_devices_open<D: BlockDevice>(device: D, r: Result<Store<D>, Error>)
    requires
        open_right(device, r),
        device.reliable(),
        4224 <= device.contents().len() <= u64::MAX,
    ensures
        ({
            let c = device.contents();
            match open_outcome(c, Ok(c.subrange(0, 128)), Ok(c.subrange(4096, 4224))) {
                Ok(view) => r is Ok && r->Ok_0@ == view,
                Err(error) => r == Err::<Store<D>, Error>(error),
            }
        }),
{
}

/// On a device that can be relied on, a manifest that is not there and that there is room for
/// is stored under the digest of what is written of it.
pub proof fn law_reliable_devices_store_manifests<D: BlockDevice>(
    before: Store<D>,
    after: Store<D>,
    chunks: Seq<ChunkRef>,
    id: ObjectId,
    r: Result<ObjectId, Error>,
)
    requires
        put_manifest_right(before, after, chunks, r),
        before.device.reliable(),
        !before@.requires_recovery,
        chunks.len() <= 1_864_133,
        id@ == blake3_digest("cairn/manifest/v1\0".spec_bytes() + manifest_bytes(chunks))@,
        !before@.index.dom().contains(id),
        before@.append_offset % 8 == 0,
        before@.append_offset + 36 * chunks.len() + 87 <= before.device.contents().len()
            <= u64::MAX,
    ensures
        r == Ok::<ObjectId, Error>(id),
        after@.index == before@.index.insert(
            id,
            Entry {
                offset: before@.append_offset,
                kind: Kind::Manifest,
                len: (48 + 36 * chunks.len()) as u32,
            },
        ),
        after@.root == before@.root,
        !after@.requires_recovery,
{
    let body = manifest_bytes(chunks);
    lemma_manifest_len(chunks);
    lemma_object_id(id);
    assert(object_payload(id@, body).len() == 48 + 36 * chunks.len());
    law_records_are_appended(
        before@.append_offset,
        before.device.contents().len(),
        object_payload(id@, body).len(),
    );
    law_appending_moves_the_end(before@, Kind::Manifest, id, body, 0);
}

/// A manifest of too many chunks is refused, and so is any while the store needs recovery.
pub proof fn law_manifests_are_refused<D: BlockDevice>(
    before: Store<D>,
    after: Store<D>,
    chunks: Seq<ChunkRef>,
    r: Result<ObjectId, Error>,
)
    requires
        put_manifest_right(before, after, chunks, r),
    ensures
        before@.requires_recovery ==> r == Err::<ObjectId, Error>(Error::RequiresRecovery) && after@
            == before@ && after.device.contents() == before.device.contents(),
        !before@.requires_recovery && chunks.len() > 1_864_133 ==> r == Err::<ObjectId, Error>(
            Error::InvalidInput("manifest too large"),
        ) && after@ == before@ && after.device.contents() == before.device.contents(),
{
}

/// A superblock counts where its mark and version are right, what is set aside in it is empty,
/// and its digest is that of what stands before it.
pub proof fn law_superblocks_are_checked(bytes: Seq<u8>)
    requires
        bytes.len() == 128,
        bytes != zeros(128),
    ensures
        super_of(bytes) is Ok <==> le_value(bytes.subrange(0, 4)) == 0x4341_5350 && le_value(
            bytes.subrange(4, 6),
        ) == 2 && bytes.subrange(6, 8) == zeros(2) && bytes.subrange(92, 96) == zeros(4)
            && blake3_digest(bytes.subrange(0, 96))@ == bytes.subrange(96, 128),
        super_of(bytes) matches Ok(s) ==> s.generation == le_value(bytes.subrange(8, 16)) as u64
            && s.root_offset == le_value(bytes.subrange(16, 24)) as u64 && s.root_len == le_value(
            bytes.subrange(24, 28),
        ) as u32,
{
}

/// What is read as a manifest is one: its identifier is the digest of its body, the body has
/// the mark of its version and just as many chunks as it says, and an object has just as many
/// bytes as its manifest says.
pub proof fn law_read_manifests_are_right(v: StoreView, c: Seq<u8>, id: ObjectId)
    ensures
        body_of(v.index, c, id) matches Ok(body) ==> id@ == blake3_digest(
            "cairn/manifest/v1\0".spec_bytes() + body,
        )@ && v.index.dom().contains(id) && v.index[id].kind == Kind::Manifest,
        manifest_of(v.index, c, id) matches Ok((total, chunks)) ==> {
            let body = body_of(v.index, c, id)->Ok_0;
            &&& body_of(v.index, c, id) is Ok
            &&& body.len() == 16 + 36 * chunks.len()
            &&& body.subrange(0, 2) == le_bytes(1, 2)
            &&& body.subrange(2, 4) == zeros(2)
            &&& le_value(body.subrange(4, 8)) == chunks.len()
            &&& total == le_value(body.subrange(8, 16)) as u64
        },
        object_bytes(v.index, c, id) matches Ok(bytes) ==> (manifest_of(
            v.index,
            c,
            id,
        ) matches Ok((total, chunks)) && bytes.len() == total),
{
}

/// Each chunk of a manifest that is read is there, of the length that it says, and has its
/// identifier.
pub proof fn law_read_manifests_have_their_chunks(
    v: StoreView,
    c: Seq<u8>,
    id: ObjectId,
    total: u64,
    chunks: Seq<ChunkRef>,
    i: int,
)
    requires
        manifest_of(v.index, c, id) == Ok::<(u64, Seq<ChunkRef>), Error>((total, chunks)),
        0 <= i < chunks.len(),
    ensures
        v.index.dom().contains(chunks[i].id),
        v.index[chunks[i].id].kind == Kind::Chunk,
        record_at(c, v.index[chunks[i].id].offset as int) matches Ok((header, payload))
            && payload.len() == 32 + chunks[i].len && payload.take(32) == chunks[i].id@
            && chunks[i].id@ == blake3_digest(
            "cairn/chunk/v1\0".spec_bytes() + payload.skip(32),
        )@,
{
    let find = |k: int| chunk_problem(v.index, c, chunks[k]);
    lemma_first_none(find, 0, chunks.len() as int, i);
    assert(find(i) is None);
}

/// Whether the superblock leads to the root: its record is whole, of that generation, and holds
/// the manifest and the generation, and the superblock has the record's digest.
pub open spec fn leads_to(c: Seq<u8>, s: Super, root: Root) -> bool {
    &&& s.generation == root.generation
    &&& s.manifest == root.manifest
    &&& record_at(c, s.root_offset as int) matches Ok((header, payload)) && {
        &&& header.kind == Kind::Root
        &&& header.generation == root.generation
        &&& payload.len() == 40
        &&& payload.take(32) == root.manifest@
        &&& le_value(payload.subrange(32, 40)) == root.generation
        &&& s.root_digest@ == record_digest(Kind::Root, root.generation, payload)
    }
}

/// A store that was opened has the root that one of the superblocks leads to, and the manifest
/// of that root is there with all its chunks.
pub proof fn law_opened_roots_are_whole(
    c: Seq<u8>,
    a: Seq<u8>,
    b: Seq<u8>,
    w: StoreView,
    root: Root,
)
    requires
        open_outcome(c, Ok(a), Ok(b)) == Ok::<StoreView, Error>(w),
        w.root == Some(root),
    ensures
        (super_of(a) matches Ok(s) && leads_to(c, s, root)) || (super_of(b) matches Ok(s)
            && leads_to(c, s, root)),
        manifest_of(w.index, c, root.manifest) matches Ok((total, chunks)) && total_len(chunks)
            == total,
        !w.requires_recovery,
        w.active <= 1,
{
}

/// Of two superblocks that count, the one of the larger generation is used where its log is
/// whole.
pub proof fn law_newer_superblocks_are_used(
    c: Seq<u8>,
    a: Seq<u8>,
    b: Seq<u8>,
    w: StoreView,
    older: Super,
    newer: Super,
    index: Index,
    root: Root,
)
    requires
        super_of(a) == Ok::<Super, Error>(older),
        super_of(b) == Ok::<Super, Error>(newer),
        candidate_valid(c, older) == Ok::<bool, Error>(true),
        candidate_valid(c, newer) == Ok::<bool, Error>(true),
        older.generation < newer.generation,
        load(c, newer) == Ok::<Option<(Index, Option<Root>)>, Error>(Some((index, Some(root)))),
        open_outcome(c, Ok(a), Ok(b)) == Ok::<StoreView, Error>(w),
    ensures
        w.root == Some(root),
        w.active == 1,
        w.index == index,
        root.generation == newer.generation,
        root.manifest == newer.manifest,
{
}

} // verus!
