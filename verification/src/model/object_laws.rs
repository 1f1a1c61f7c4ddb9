//! What the model of the object store owes to its callers.
use vstd::prelude::*;
use vstd::string::*;

use crate::engine::format::{lemma_object_id, manifest_bytes, total_len, ChunkRef, ObjectId, Root};
use crate::first::{lemma_first_clear, lemma_first_none};
use crate::hashing::blake3_digest;
use crate::model::objects::{
    chunk_under, commit_outcome, commit_problem, empty_model, known, put_manifest_outcome,
    put_outcome, ref_problem, refs_problem, reopened, Error, ModelView, StoredView,
};

verus! {

/// Bytes are staged under the digest that is theirs and no other, once; an object that is there
/// with other bytes is a conflict.
pub proof fn law_bytes_are_staged(v: ModelView, id: ObjectId, bytes: Seq<u8>)
    ensures
        ({
            let right = id@ == blake3_digest("cairn/chunk/v1\0".spec_bytes() + bytes)@;
            let (r, w) = put_outcome(v, id, bytes);
            &&& !right ==> r == Err::<(), Error>(Error::InvalidObjectId(id)) && w == v
            &&& right && !v.committed.dom().contains(id) && !v.pending.dom().contains(id) ==> r
                is Ok && w.pending == v.pending.insert(id, StoredView::Chunk(bytes)) && w.committed
                == v.committed && w.root == v.root
            &&& right && v.committed.dom().contains(id) && v.committed[id] == StoredView::Chunk(
                bytes,
            ) ==> r is Ok && w == v
            &&& right && v.committed.dom().contains(id) && v.committed[id] != StoredView::Chunk(
                bytes,
            ) ==> r == Err::<(), Error>(Error::ConflictingObject(id)) && w == v
            &&& right && !v.committed.dom().contains(id) && v.pending.dom().contains(id)
                && v.pending[id] == StoredView::Chunk(bytes) ==> r is Ok && w == v
            &&& right && !v.committed.dom().contains(id) && v.pending.dom().contains(id)
                && v.pending[id] != StoredView::Chunk(bytes) ==> r == Err::<(), Error>(
                Error::ConflictingObject(id),
            ) && w == v
        }),
{
}

/// A manifest is staged under the digest of what is written of it, with the sum of its chunks'
/// lengths.
pub proof fn law_manifests_are_staged(v: ModelView, chunks: Seq<ChunkRef>, id: ObjectId)
    requires
        id@ == blake3_digest("cairn/manifest/v1\0".spec_bytes() + manifest_bytes(chunks))@,
        total_len(chunks) <= u64::MAX,
    ensures
        !v.committed.dom().contains(id) && !v.pending.dom().contains(id) ==> {
            let (r, w) = put_manifest_outcome(v, chunks);
            &&& r == Ok::<ObjectId, Error>(id)
            &&& w.pending == v.pending.insert(
                id,
                StoredView::Manifest { chunks, total_len: total_len(chunks) as u64 },
            )
            &&& w.committed == v.committed
            &&& w.root == v.root
        },
{
    lemma_object_id(id);
}

/// Whether the chunk is there with that length, staged or committed.
pub open spec fn has_chunk(v: ModelView, chunk: ChunkRef) -> bool {
    if v.pending.dom().contains(chunk.id) {
        v.pending[chunk.id] matches StoredView::Chunk(bytes) && bytes.len() == chunk.len
    } else {
        v.committed.dom().contains(chunk.id) && (
        v.committed[chunk.id] matches StoredView::Chunk(bytes) && bytes.len() == chunk.len)
    }
}

/// A manifest whose chunks are all there is committed under a larger generation: the root is
/// set, and everything that was staged is committed.
pub proof fn law_complete_manifests_are_committed(
    v: ModelView,
    manifest: ObjectId,
    generation: u64,
    chunks: Seq<ChunkRef>,
    total: u64,
    id: ObjectId,
)
    requires
        generation > 0,
        v.root matches Some(root) ==> root.generation < generation,
        known(v, manifest) == Some(StoredView::Manifest { chunks, total_len: total }),
        forall|i: int| 0 <= i < chunks.len() ==> has_chunk(v, #[trigger] chunks[i]),
    ensures
        ({
            let (r, w) = commit_outcome(v, manifest, generation);
            &&& r == Ok::<Root, Error>(Root { generation, manifest })
            &&& w.root == Some(Root { generation, manifest })
            &&& v.pending.dom().contains(id) ==> w.committed.dom().contains(id) && w.committed[id]
                == v.pending[id]
            &&& !v.pending.dom().contains(id) ==> w.committed.dom().contains(id)
                == v.committed.dom().contains(id)
            &&& !v.pending.dom().contains(id) && v.committed.dom().contains(id) ==> w.committed[id]
                == v.committed[id]
            &&& !w.pending.dom().contains(id)
        }),
{
    let find = |i: int| ref_problem(v, chunks[i]);
    assert forall|i: int| 0 <= i < chunks.len() implies #[trigger] find(i) is None by {
        assert(has_chunk(v, chunks[i]));
    }
    lemma_first_clear(find, 0, chunks.len() as int);
}

/// Why a root is not committed: its generation is not larger, the manifest is not there or is
/// none, or one of its chunks is missing. Nothing changes.
pub proof fn law_other_roots_are_not_committed(
    v: ModelView,
    manifest: ObjectId,
    generation: u64,
    i: int,
)
    ensures
        commit_outcome(v, manifest, generation).0 is Err ==> commit_outcome(
            v,
            manifest,
            generation,
        ).1 == v,
        generation == 0 || (v.root is Some && generation <= v.root->0.generation) ==> commit_problem(
            v,
            manifest,
            generation,
        ) == Some(Error::InvalidGeneration),
        generation > 0 && (v.root is Some ==> v.root->0.generation < generation)
            && !v.pending.dom().contains(manifest) && !v.committed.dom().contains(manifest)
            ==> commit_problem(v, manifest, generation) == Some(Error::NotFound(manifest)),
        generation > 0 && (v.root is Some ==> v.root->0.generation < generation) && (known(
            v,
            manifest,
        ) matches Some(StoredView::Chunk(_))) ==> commit_problem(v, manifest, generation) == Some(
            Error::InvalidManifest(manifest),
        ),
        (known(v, manifest) matches Some(StoredView::Manifest { chunks, total_len }) && 0 <= i
            < chunks.len() && !has_chunk(v, chunks[i])) ==> commit_problem(v, manifest, generation)
            is Some,
{
    if let Some(StoredView::Manifest { chunks, total_len }) = known(v, manifest) {
        if 0 <= i < chunks.len() && !has_chunk(v, chunks[i]) {
            let find = |k: int| ref_problem(v, chunks[k]);
            assert(find(i) is Some);
            if refs_problem(v, chunks) is None {
                lemma_first_none(find, 0, chunks.len() as int, i);
            }
        }
    }
}

/// A crash forgets what was staged and keeps what was committed; a new store has nothing.
pub proof fn law_crashes_forget_what_was_staged(v: ModelView, id: ObjectId, bytes: Seq<u8>)
    ensures
        !reopened(v).pending.dom().contains(id),
        reopened(v).committed == v.committed,
        reopened(v).root == v.root,
        !empty_model().committed.dom().contains(id),
        !empty_model().pending.dom().contains(id),
        empty_model().root is None,
        v.committed.dom().contains(id) && v.committed[id] == StoredView::Chunk(bytes)
            ==> chunk_under(v.committed, id) == Some(bytes),
        !v.committed.dom().contains(id) ==> chunk_under(v.committed, id) is None,
{
}

} // verus!
