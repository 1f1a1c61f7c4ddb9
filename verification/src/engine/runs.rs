//! What holds of the object store after any run of requests on a reliable device.
use vstd::prelude::*;

use crate::bytes::splice;
use crate::engine::commit::{commit_problem, committed_bytes, committed_view, new_super};
use crate::engine::format::{
    lemma_manifest_len, manifest_bytes, manifest_digest, object_id, super_bytes, ChunkRef, Error, Kind, ObjectId, Super,
    MAX_MANIFEST_CHUNKS, MAX_PAYLOAD, RECORDS_START, SLOT_SIZE,
};
use crate::engine::laws::{named_right, no_clash, settled};
use crate::engine::log::{append_problem, manifest_of, object_bytes, poisoned, StoreView};
use crate::engine::objects::{
    piece_ref, piece_refs, pieces, put_object_outcome, put_object_problem, put_outcome, put_piece,
    put_pieces,
};
use crate::engine::readback::{
    law_put_object_again_changes_nothing, law_put_object_reads_back, lemma_manifest_clear,
    lemma_manifest_named, lemma_piece_named, lemma_rest_clear, object_clear, object_name,
    pieces_clear,
};
use crate::engine::soundness::{
    law_commit_keeps_soundness, law_formatted_is_sound, law_put_keeps_soundness, sound,
};

verus! {

/// What can be asked of the store that may change it.
pub enum StoreRequest {
    PutBytes { bytes: Seq<u8> },
    PutManifest { chunks: Seq<ChunkRef> },
    PutObject { data: Seq<u8>, size: nat },
    Commit { manifest: ObjectId, generation: u64 },
}

/// What storing a manifest comes to on a reliable device.
pub open spec fn put_manifest_outcome(v: StoreView, c: Seq<u8>, chunks: Seq<ChunkRef>) -> (
    Result<ObjectId, Error>,
    StoreView,
    Seq<u8>,
) {
    if v.requires_recovery {
        (Err(Error::RequiresRecovery), v, c)
    } else if chunks.len() > MAX_MANIFEST_CHUNKS {
        (Err(Error::InvalidInput("manifest too large")), v, c)
    } else {
        put_outcome(
            v,
            c,
            Kind::Manifest,
            object_id(manifest_digest(manifest_bytes(chunks))),
            manifest_bytes(chunks),
        )
    }
}

/// What a commit leaves on a reliable device.
pub open spec fn commit_outcome(v: StoreView, c: Seq<u8>, manifest: ObjectId, generation: u64) -> (
    StoreView,
    Seq<u8>,
) {
    if commit_problem(v, c, manifest, generation) is Some {
        (v, c)
    } else {
        match append_problem(v.append_offset, c.len(), 40) {
            Some(Error::Capacity) => (v, c),
            Some(_) => (poisoned(v), c),
            None => (
                committed_view(v, manifest, generation),
                committed_bytes(v, c, manifest, generation),
            ),
        }
    }
}

/// The store and the bytes of the device after a request.
pub open spec fn served(v: StoreView, c: Seq<u8>, request: StoreRequest) -> (StoreView, Seq<u8>) {
    match request {
        StoreRequest::PutBytes { bytes } => {
            let (_, w, d) = put_piece(v, c, bytes);
            (w, d)
        },
        StoreRequest::PutManifest { chunks } => {
            let (_, w, d) = put_manifest_outcome(v, c, chunks);
            (w, d)
        },
        StoreRequest::PutObject { data, size } => {
            let (_, w, d) = put_object_outcome(v, c, data, size);
            (w, d)
        },
        StoreRequest::Commit { manifest, generation } => commit_outcome(
            v,
            c,
            manifest,
            generation,
        ),
    }
}

pub open spec fn served_all(v: StoreView, c: Seq<u8>, requests: Seq<StoreRequest>) -> (
    StoreView,
    Seq<u8>,
)
    decreases requests.len(),
{
    if requests.len() == 0 {
        (v, c)
    } else {
        let (w, d) = served_all(v, c, requests.drop_last());
        served(w, d, requests.last())
    }
}

/// Whether the log holds nothing else under the identifiers of what the request stores.
pub open spec fn request_clear(v: StoreView, c: Seq<u8>, request: StoreRequest) -> bool {
    match request {
        StoreRequest::PutBytes { bytes } => no_clash(
            v,
            c,
            Kind::Chunk,
            piece_ref(bytes).id,
            bytes,
        ),
        StoreRequest::PutManifest { chunks } => no_clash(
            v,
            c,
            Kind::Manifest,
            object_id(manifest_digest(manifest_bytes(chunks))),
            manifest_bytes(chunks),
        ),
        StoreRequest::PutObject { data, size } => object_clear(v, c, data, size),
        StoreRequest::Commit { .. } => true,
    }
}

pub open spec fn requests_clear(v: StoreView, c: Seq<u8>, requests: Seq<StoreRequest>) -> bool
    decreases requests.len(),
{
    requests.len() > 0 ==> {
        let (w, d) = served_all(v, c, requests.drop_last());
        requests_clear(v, c, requests.drop_last()) && request_clear(w, d, requests.last())
    }
}

/// The store on a device that was just formatted.
pub open spec fn formatted() -> StoreView {
    StoreView {
        index: Map::empty(),
        root: None,
        append_offset: RECORDS_START,
        active: 0,
        requires_recovery: false,
    }
}

/// The bytes of a device that was just formatted.
pub open spec fn formatted_bytes(before: Seq<u8>, s: Super) -> Seq<u8> {
    splice(splice(before, 0, super_bytes(s)), SLOT_SIZE as int, super_bytes(s))
}

/// Storing one object keeps the store sound, whatever comes of it.
proof fn lemma_put_sound(
    v: StoreView,
    c: Seq<u8>,
    s: Super,
    kind: Kind,
    id: ObjectId,
    bytes: Seq<u8>,
)
    requires
        sound(v, c, s),
        named_right(kind, id, bytes),
        bytes.len() <= MAX_PAYLOAD - 32,
        no_clash(v, c, kind, id, bytes),
    ensures
        sound(put_outcome(v, c, kind, id, bytes).1, put_outcome(v, c, kind, id, bytes).2, s),
{
    if put_outcome(v, c, kind, id, bytes).0 is Ok {
        law_put_keeps_soundness(v, c, s, kind, id, bytes);
    }
}

proof fn lemma_pieces_sound(v: StoreView, c: Seq<u8>, s: Super, parts: Seq<Seq<u8>>)
    requires
        sound(v, c, s),
        pieces_clear(v, c, parts),
    ensures
        sound(put_pieces(v, c, parts).1, put_pieces(v, c, parts).2, s),
    decreases parts.len(),
{
    if parts.len() > 0 {
        let (r, w, d) = put_piece(v, c, parts[0]);
        lemma_piece_named(parts[0]);
        if !v.requires_recovery && parts[0].len() <= MAX_PAYLOAD - 32 {
            lemma_put_sound(v, c, s, Kind::Chunk, piece_ref(parts[0]).id, parts[0]);
        }
        if r is Ok {
            lemma_rest_clear(v, c, parts);
            lemma_pieces_sound(w, d, s, parts.drop_first());
        }
    }
}

/// Every request keeps the store sound, where nothing clashes.
#[verifier::spinoff_prover]
pub proof fn law_request_keeps_the_store(
    v: StoreView,
    c: Seq<u8>,
    s: Super,
    request: StoreRequest,
)
    requires
        sound(v, c, s),
        request_clear(v, c, request),
    ensures
        exists|t: Super| sound(served(v, c, request).0, served(v, c, request).1, t),
{
    let (w, d) = served(v, c, request);
    match request {
        StoreRequest::PutBytes { bytes } => {
            lemma_piece_named(bytes);
            if !v.requires_recovery && bytes.len() <= MAX_PAYLOAD - 32 {
                lemma_put_sound(v, c, s, Kind::Chunk, piece_ref(bytes).id, bytes);
            }
            assert(sound(w, d, s));
        },
        StoreRequest::PutManifest { chunks } => {
            lemma_manifest_named(chunks);
            if !v.requires_recovery && chunks.len() <= MAX_MANIFEST_CHUNKS {
                lemma_manifest_len(chunks);
                lemma_put_sound(
                    v,
                    c,
                    s,
                    Kind::Manifest,
                    object_id(manifest_digest(manifest_bytes(chunks))),
                    manifest_bytes(chunks),
                );
            }
            assert(sound(w, d, s));
        },
        StoreRequest::PutObject { data, size } => {
            lemma_object_sound(v, c, s, data, size);
            assert(sound(w, d, s));
        },
        StoreRequest::Commit { manifest, generation } => {
            if commit_problem(v, c, manifest, generation) is None && append_problem(
                v.append_offset,
                c.len(),
                40,
            ) is None {
                law_commit_keeps_soundness(v, c, s, manifest, generation);
                assert(sound(w, d, new_super(v, manifest, generation)));
            } else {
                assert(sound(w, d, s));
            }
        },
    }
}

#[verifier::spinoff_prover]
proof fn lemma_object_sound(v: StoreView, c: Seq<u8>, s: Super, data: Seq<u8>, size: nat)
    requires
        sound(v, c, s),
        object_clear(v, c, data, size),
    ensures
        sound(put_object_outcome(v, c, data, size).1, put_object_outcome(v, c, data, size).2, s),
{
    if put_object_problem(v, c, data, size) is None {
        let parts = pieces(data, size);
        let (r, w, d) = put_pieces(v, c, parts);
        lemma_pieces_sound(v, c, s, parts);
        let body = manifest_bytes(piece_refs(parts));
        let manifest = object_name(data, size);
        if r is Ok && !w.requires_recovery && put_outcome(
            w,
            d,
            Kind::Manifest,
            manifest,
            body,
        ).0 is Ok {
            lemma_manifest_named(piece_refs(parts));
            lemma_manifest_clear(v, c, data, size);
            lemma_manifest_len(piece_refs(parts));
            law_put_keeps_soundness(w, d, s, Kind::Manifest, manifest, body);
        }
    }
}

/// Whether the store is sound under some superblock.
#[verifier::opaque]
pub open spec fn whole(v: StoreView, c: Seq<u8>) -> bool {
    exists|s: Super| sound(v, c, s)
}

proof fn lemma_request_whole(v: StoreView, c: Seq<u8>, request: StoreRequest)
    requires
        whole(v, c),
        request_clear(v, c, request),
    ensures
        whole(served(v, c, request).0, served(v, c, request).1),
{
    reveal(whole);
    let s = choose|s: Super| sound(v, c, s);
    law_request_keeps_the_store(v, c, s, request);
}

proof fn lemma_requests_whole(v: StoreView, c: Seq<u8>, requests: Seq<StoreRequest>)
    requires
        whole(v, c),
        requests_clear(v, c, requests),
    ensures
        whole(served_all(v, c, requests).0, served_all(v, c, requests).1),
    decreases requests.len(),
{
    if requests.len() > 0 {
        let (w, d) = served_all(v, c, requests.drop_last());
        lemma_requests_whole(v, c, requests.drop_last());
        lemma_request_whole(w, d, requests.last());
    }
}

proof fn lemma_formatted_whole(before: Seq<u8>, s: Super)
    requires
        RECORDS_START <= before.len() <= u64::MAX,
        s.generation == 0,
        s.root_offset == 0,
        s.root_len == 0,
    ensures
        whole(formatted(), formatted_bytes(before, s)),
{
    reveal(whole);
    law_formatted_is_sound(formatted(), before, formatted_bytes(before, s), s);
}

/// After any run of requests on a store that was just formatted, where nothing clashes, the
/// store is sound: the log is intact, and opening the device finds its root.
pub proof fn law_every_store_is_sound(before: Seq<u8>, s: Super, requests: Seq<StoreRequest>)
    requires
        RECORDS_START <= before.len() <= u64::MAX,
        s.generation == 0,
        s.root_offset == 0,
        s.root_len == 0,
        requests_clear(formatted(), formatted_bytes(before, s), requests),
    ensures
        whole(
            served_all(formatted(), formatted_bytes(before, s), requests).0,
            served_all(formatted(), formatted_bytes(before, s), requests).1,
        ),
{
    lemma_formatted_whole(before, s);
    lemma_requests_whole(formatted(), formatted_bytes(before, s), requests);
}

/// An object that is put after any run of requests, where nothing clashes, reads back: its
/// manifest lists the chunks of the data, reading it gives the data, and putting it again
/// changes nothing.
pub proof fn law_every_put_object_reads_back(
    before: Seq<u8>,
    s: Super,
    requests: Seq<StoreRequest>,
    data: Seq<u8>,
    size: nat,
)
    requires
        RECORDS_START <= before.len() <= u64::MAX,
        s.generation == 0,
        s.root_offset == 0,
        s.root_len == 0,
        data.len() <= isize::MAX,
        requests_clear(
            formatted(),
            formatted_bytes(before, s),
            requests.push(StoreRequest::PutObject { data, size }),
        ),
    ensures
        ({
            let (v, c) = served_all(formatted(), formatted_bytes(before, s), requests);
            let (r, w, d) = put_object_outcome(v, c, data, size);
            let id = object_name(data, size);
            r is Ok ==> {
                &&& r == Ok::<ObjectId, Error>(id)
                &&& object_bytes(w.index, d, id) == Ok::<Seq<u8>, Error>(data)
                &&& manifest_of(w.index, d, id) == Ok::<(u64, Seq<ChunkRef>), Error>(
                    (data.len() as u64, piece_refs(pieces(data, size))),
                )
                &&& put_object_outcome(w, d, data, size) == (r, w, d)
            }
        }),
{
    let all = requests.push(StoreRequest::PutObject { data, size });
    assert(all.drop_last() =~= requests);
    assert(all.last() == (StoreRequest::PutObject { data, size }));
    law_every_store_is_sound(before, s, requests);
    let (v, c) = served_all(formatted(), formatted_bytes(before, s), requests);
    assert(settled(v, c)) by {
        reveal(whole);
    }
    if put_object_outcome(v, c, data, size).0 is Ok {
        law_put_object_reads_back(v, c, data, size);
        law_put_object_again_changes_nothing(v, c, data, size);
    }
}

} // verus!
