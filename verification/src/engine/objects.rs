//! Storing an object in chunks.
use vstd::prelude::*;

use crate::device::block::{carried, faithful, saved, BlockDevice};
use crate::engine::format::{
    chunk_digest, chunk_id, layout_of, lemma_manifest_len, lemma_object_id, manifest_body, manifest_bytes,
    manifest_digest, manifest_id, manifest_layout, object_id, total_len, ChunkRef, Error, Kind,
    ObjectId, DEFAULT_CHUNK_SIZE, MAX_MANIFEST_CHUNKS, MAX_PAYLOAD,
};
use crate::engine::log::{
    after_append, aligned, append_problem, body_of, chunk_problem, new_header, poisoned,
    with_record, Index, StoreView,
};
use crate::engine::laws::{agree, lemma_with_record_agrees};
use crate::engine::store::{align, check_chunk, faulted, read_body, sum_of, Store};
use crate::engine::write::{
    known_object, object_payload, put_bytes_right, put_manifest_right, same_store, stored,
};
use crate::first::{first_some, lemma_first_at, lemma_first_clear};
use crate::table::Table;

verus! {

/// How many chunks data of the given length has.
pub open spec fn piece_count(len: nat, size: nat) -> nat {
    if size == 0 {
        0
    } else {
        (len + size - 1) as nat / size
    }
}

/// Where the `i`th chunk ends.
pub open spec fn piece_end(len: nat, size: nat, i: int) -> int {
    if (i + 1) * size <= len {
        (i + 1) * size
    } else {
        len as int
    }
}

/// The chunks of the data: all of the given size, but for the last.
pub open spec fn pieces(data: Seq<u8>, size: nat) -> Seq<Seq<u8>> {
    Seq::new(
        piece_count(data.len(), size),
        |i: int| data.subrange(i * size, piece_end(data.len(), size, i)),
    )
}

/// The reference to a chunk with the given bytes.
pub open spec fn piece_ref(piece: Seq<u8>) -> ChunkRef {
    ChunkRef { id: object_id(chunk_digest(piece)), len: piece.len() as u32 }
}

pub open spec fn piece_refs(parts: Seq<Seq<u8>>) -> Seq<ChunkRef> {
    parts.map_values(|piece: Seq<u8>| piece_ref(piece))
}

/// How many bytes of the log the record of an object takes.
pub open spec fn span(len: nat) -> int {
    aligned(64 + len as int)
}

/// How many bytes of the log the chunks take that are not known yet.
pub open spec fn chunks_span(known: Set<ObjectId>, parts: Seq<Seq<u8>>) -> int
    decreases parts.len(),
{
    if parts.len() == 0 {
        0
    } else {
        let id = piece_ref(parts[0]).id;
        if known.contains(id) {
            chunks_span(known, parts.drop_first())
        } else {
            span(parts[0].len()) + chunks_span(known.insert(id), parts.drop_first())
        }
    }
}

/// What is wrong with one of the chunks that are there, if anything.
pub open spec fn present_problem(index: Index, c: Seq<u8>, chunk: ChunkRef) -> Option<Error> {
    if index.dom().contains(chunk.id) {
        chunk_problem(index, c, chunk)
    } else {
        None
    }
}

/// What is wrong with what is there of an object, or that there is no room for the rest.
pub open spec fn room_problem(
    v: StoreView,
    c: Seq<u8>,
    refs: Seq<ChunkRef>,
    manifest: ObjectId,
    end: int,
) -> Option<Error> {
    let there = v.index.dom().contains(manifest);
    let present = first_some(
        |i: int| present_problem(v.index, c, refs[i]),
        0,
        refs.len() as int,
    );
    if there && !(v.index[manifest].kind is Manifest) {
        Some(Error::Corruption("object id collision"))
    } else if there && body_of(v.index, c, manifest) is Err {
        Some(body_of(v.index, c, manifest)->Err_0)
    } else if there && layout_of(body_of(v.index, c, manifest)->Ok_0) is Err {
        Some(layout_of(body_of(v.index, c, manifest)->Ok_0)->Err_0)
    } else if present is Some {
        present
    } else if end + (if there {
        0
    } else {
        span((16 + 36 * refs.len()) as nat)
    }) > c.len() {
        Some(Error::Capacity)
    } else {
        None
    }
}

/// Why an object is not stored at all, if it is not: nothing is written then.
pub open spec fn put_object_problem(v: StoreView, c: Seq<u8>, data: Seq<u8>, size: nat) -> Option<
    Error,
> {
    let parts = pieces(data, size);
    let refs = piece_refs(parts);
    let need = chunks_span(v.index.dom(), parts);
    if v.requires_recovery {
        Some(Error::RequiresRecovery)
    } else if size == 0 {
        Some(Error::InvalidInput("chunk size must be non-zero"))
    } else if size > u32::MAX {
        Some(Error::InvalidInput("chunk size exceeds manifest limit"))
    } else if parts.len() > MAX_MANIFEST_CHUNKS {
        Some(Error::InvalidInput("manifest too large"))
    } else if v.append_offset + need > u64::MAX {
        Some(Error::Capacity)
    } else {
        room_problem(
            v,
            c,
            refs,
            object_id(manifest_digest(manifest_bytes(refs))),
            v.append_offset + need,
        )
    }
}

/// What storing an object comes to on a reliable device: the answer, what the store
/// knows, and what the device holds.
pub open spec fn put_outcome(v: StoreView, c: Seq<u8>, kind: Kind, id: ObjectId, bytes: Seq<u8>) -> (
    Result<ObjectId, Error>,
    StoreView,
    Seq<u8>,
) {
    let payload = object_payload(id@, bytes);
    match known_object(v, c, kind, id, bytes.len()) {
        Some(known) => (known, v, c),
        None => match append_problem(v.append_offset, c.len(), payload.len()) {
            Some(error) => (
                Err(error),
                if error is Capacity {
                    v
                } else {
                    poisoned(v)
                },
                c,
            ),
            None => (
                Ok(id),
                after_append(v, kind, payload, 0),
                with_record(c, v.append_offset as int, kind, payload, 0),
            ),
        },
    }
}

/// What storing a chunk comes to on a reliable device.
pub open spec fn put_piece(v: StoreView, c: Seq<u8>, piece: Seq<u8>) -> (
    Result<ObjectId, Error>,
    StoreView,
    Seq<u8>,
) {
    if v.requires_recovery {
        (Err(Error::RequiresRecovery), v, c)
    } else if piece.len() > MAX_PAYLOAD - 32 {
        (Err(Error::InvalidInput("object too large")), v, c)
    } else {
        put_outcome(v, c, Kind::Chunk, piece_ref(piece).id, piece)
    }
}

/// What storing the chunks one after the other comes to.
pub open spec fn put_pieces(v: StoreView, c: Seq<u8>, parts: Seq<Seq<u8>>) -> (
    Result<(), Error>,
    StoreView,
    Seq<u8>,
)
    decreases parts.len(),
{
    if parts.len() == 0 {
        (Ok(()), v, c)
    } else {
        let step = put_piece(v, c, parts[0]);
        match step.0 {
            Err(error) => (Err(error), step.1, step.2),
            Ok(_) => put_pieces(step.1, step.2, parts.drop_first()),
        }
    }
}

/// What storing an object in chunks comes to on a reliable device.
pub open spec fn put_object_outcome(v: StoreView, c: Seq<u8>, data: Seq<u8>, size: nat) -> (
    Result<ObjectId, Error>,
    StoreView,
    Seq<u8>,
) {
    match put_object_problem(v, c, data, size) {
        Some(error) => (Err(error), v, c),
        None => {
            let parts = pieces(data, size);
            let refs = piece_refs(parts);
            let put = put_pieces(v, c, parts);
            match put.0 {
                Err(error) => (Err(error), put.1, put.2),
                Ok(_) => if put.1.requires_recovery {
                    (Err(Error::RequiresRecovery), put.1, put.2)
                } else {
                    put_outcome(
                        put.1,
                        put.2,
                        Kind::Manifest,
                        object_id(manifest_digest(manifest_bytes(refs))),
                        manifest_bytes(refs),
                    )
                },
            }
        },
    }
}

pub proof fn lemma_pieces(len: nat, size: nat, i: int)
    requires
        size > 0,
        0 <= i < piece_count(len, size),
    ensures
        0 <= i * size < len,
        i * size < piece_end(len, size, i) <= len,
        piece_end(len, size, i) - i * size <= size,
{
    let n = piece_count(len, size);
    assert(n * size <= len + size - 1) by (nonlinear_arith)
        requires
            n == (len + size - 1) as nat / size,
            size > 0,
    ;
    assert(i * size <= (n - 1) * size) by (nonlinear_arith)
        requires
            i <= n - 1,
            size > 0,
    ;
    assert((n - 1) * size == n * size - size) by (nonlinear_arith);
    assert((i + 1) * size == i * size + size) by (nonlinear_arith);
    assert(0 <= i * size) by (nonlinear_arith)
        requires
            0 <= i,
            size > 0,
    ;
}

impl<D: BlockDevice> Store<D> {
    /// Stores an object in chunks of the usual size.
    pub fn put_object(&mut self, data: &[u8]) -> (r: Result<ObjectId, Error>)
        requires
            old(self).wf(),
        ensures
            put_object_right(*old(self), *final(self), data@, DEFAULT_CHUNK_SIZE as nat, r),
    {
        self.put_object_with_chunk_size(data, DEFAULT_CHUNK_SIZE)
    }

    /// The references to the chunks of the data, and how far the log reaches once those
    /// that are new are in it. `None` means that it would reach too far.
    fn plan_chunks(&self, data: &[u8], size: usize, count: usize) -> (r: (
        Vec<ChunkRef>,
        Option<u64>,
    ))
        requires
            0 < size <= u32::MAX,
            count == piece_count(data@.len(), size as nat),
            count <= MAX_MANIFEST_CHUNKS,
        ensures
            r.1 is Some ==> r.0@ == piece_refs(pieces(data@, size as nat)),
            r.1 == ({
                let end = self@.append_offset + chunks_span(
                    self@.index.dom(),
                    pieces(data@, size as nat),
                );
                if end > u64::MAX {
                    None
                } else {
                    Some(end as u64)
                }
            }),
    {
        let ghost parts = pieces(data@, size as nat);
        let mut chunks: Vec<ChunkRef> = Vec::new();
        let mut fresh: Table<ObjectId, ()> = Table::new();
        let mut end: u64 = self.append_offset;
        let mut i: usize = 0;
        let total: usize = data.len();
        let ghost whole = self@.append_offset + chunks_span(self@.index.dom(), parts);
        proof {
            assert(parts.skip(0) =~= parts);
            assert(self@.index.dom().union(fresh@.dom()) =~= self@.index.dom());
        }
        while i < count
            invariant
                i <= count,
                total == data@.len(),
                0 < size <= u32::MAX,
                count == piece_count(data@.len(), size as nat),
                parts == pieces(data@, size as nat),
                parts.len() == count,
                chunks@ =~= piece_refs(parts).take(i as int),
                whole == self@.append_offset + chunks_span(self@.index.dom(), parts),
                whole == end + chunks_span(
                    self@.index.dom().union(fresh@.dom()),
                    parts.skip(i as int),
                ),
            decreases count - i,
        {
            proof {
                lemma_pieces(total as nat, size as nat, i as int);
                assert((i + 1) * size == i * size + size) by (nonlinear_arith);
            }
            let from: usize = i * size;
            let to: usize = if total - from < size {
                total
            } else {
                from + size
            };
            let piece = vstd::slice::slice_subrange(data, from, to);
            let id = chunk_id(piece);
            let ghost known = self@.index.dom().union(fresh@.dom());
            proof {
                assert(to == piece_end(total as nat, size as nat, i as int));
                assert(parts[i as int] =~= piece@);
                assert(parts.skip(i as int)[0] == piece@);
                assert(parts.skip(i as int).drop_first() =~= parts.skip(i + 1));
                assert(id == piece_ref(piece@).id);
            }
            chunks.push(ChunkRef { id, len: piece.len() as u32 });
            proof {
                assert(piece_refs(parts).take(i + 1) =~= piece_refs(parts).take(i as int).push(
                    piece_ref(piece@),
                ));
            }
            if !self.index.contains_key(&id) && !fresh.contains_key(&id) {
                let width: u64 = match align(64 + piece.len() as u64) {
                    Ok(width) => width,
                    Err(_) => {
                        return (chunks, None);
                    },
                };
                proof {
                    lemma_span_positive(known.insert(id), parts.skip(i + 1));
                }
                match end.checked_add(width) {
                    Some(sum) => {
                        end = sum;
                    },
                    None => {
                        return (chunks, None);
                    },
                }
                fresh.insert(id, ());
                proof {
                    assert(self@.index.dom().union(fresh@.dom()) =~= known.insert(id));
                }
            }
            i = i + 1;
        }
        proof {
            assert(parts.skip(i as int) =~= Seq::empty());
            assert(piece_refs(parts).take(i as int) =~= piece_refs(parts));
        }
        (chunks, Some(end))
    }

    /// Checks those of the chunks that are there.
    fn check_present(&mut self, chunks: &Vec<ChunkRef>) -> (r: Result<(), Error>)
        requires
            old(self).wf(),
        ensures
            same_store(*old(self), *final(self)),
            faulted(r, old(self).device.reliable()) || match first_some(
                |i: int|
                    present_problem(old(self)@.index, old(self).device.contents(), chunks@[i]),
                0,
                chunks@.len() as int,
            ) {
                Some(error) => r == Err::<(), Error>(error),
                None => r is Ok,
            },
    {
        let ghost first = *self;
        let ghost index = self@.index;
        let ghost c = self.device.contents();
        let ghost find = |i: int| present_problem(index, c, chunks@[i]);
        proof {
            assert(find =~= (|i: int|
                present_problem(old(self)@.index, old(self).device.contents(), chunks@[i])));
        }
        let mut i: usize = 0;
        while i < chunks.len()
            invariant
                self.wf(),
                same_store(first, *self),
                first == *old(self),
                index == self@.index,
                c == self.device.contents(),
                i <= chunks@.len(),
                find == (|i: int| present_problem(index, c, chunks@[i])),
                find == (|i: int|
                    present_problem(old(self)@.index, old(self).device.contents(), chunks@[i])),
                forall|j: int| 0 <= j < i ==> #[trigger] find(j) is None,
            decreases chunks@.len() - i,
        {
            if self.index.contains_key(&chunks[i].id) {
                match check_chunk(&mut self.device, &self.index, &chunks[i]) {
                    Ok(_) => {},
                    Err(error) => {
                        proof {
                            if !faulted(Err::<(), Error>(error), self.device.reliable()) {
                                assert(find(i as int) == Some(error));
                                lemma_first_at(find, 0, i as int, chunks@.len() as int);
                            }
                        }
                        return Err(error);
                    },
                }
            }
            proof {
                assert(find(i as int) is None);
            }
            i = i + 1;
        }
        proof {
            lemma_first_clear(find, 0, chunks@.len() as int);
        }
        Ok(())
    }

    /// Stores the chunks of the data.
    fn put_chunks(&mut self, data: &[u8], size: usize, count: usize) -> (r: Result<(), Error>)
        requires
            old(self).wf(),
            0 < size <= u32::MAX,
            count == piece_count(data@.len(), size as nat),
        ensures
            final(self).wf(),
            final(self).device.reliable() == old(self).device.reliable(),
            final(self).device.contents().len() == old(self).device.contents().len(),
            carried(old(self).device, final(self).device, r is Ok),
            front_kept(old(self).device, final(self).device, old(self)@.append_offset as int),
            r is Ok ==> old(self)@.append_offset <= final(self)@.append_offset,
            grown(old(self)@, final(self)@),
            old(self).device.reliable() || (old(self).device.steady() && r is Ok) ==> (
                r,
                final(self)@,
                final(self).device.contents(),
            ) == put_pieces(old(self)@, old(self).device.contents(), pieces(data@, size as nat)),
    {
        let ghost parts = pieces(data@, size as nat);
        let ghost v = self@;
        let ghost c = self.device.contents();
        let total: usize = data.len();
        let mut i: usize = 0;
        proof {
            assert(parts.skip(0) =~= parts);
        }
        while i < count
            invariant
                self.wf(),
                i <= count,
                total == data@.len(),
                0 < size <= u32::MAX,
                count == piece_count(data@.len(), size as nat),
                parts == pieces(data@, size as nat),
                self.device.reliable() == old(self).device.reliable(),
                self.device.contents().len() == old(self).device.contents().len(),
                carried(old(self).device, self.device, true),
                front_kept(old(self).device, self.device, v.append_offset as int),
                v.append_offset <= self@.append_offset,
                grown(v, self@),
                v == old(self)@,
                c == old(self).device.contents(),
                faithful(old(self).device) ==> put_pieces(v, c, parts) == put_pieces(
                    self@,
                    self.device.contents(),
                    parts.skip(i as int),
                ),
            decreases count - i,
        {
            proof {
                lemma_pieces(total as nat, size as nat, i as int);
                assert((i + 1) * size == i * size + size) by (nonlinear_arith);
            }
            let from: usize = i * size;
            let to: usize = if total - from < size {
                total
            } else {
                from + size
            };
            let piece = vstd::slice::slice_subrange(data, from, to);
            proof {
                assert(to == piece_end(total as nat, size as nat, i as int));
                assert(parts[i as int] =~= piece@);
                assert(parts.skip(i as int)[0] == piece@);
                assert(parts.skip(i as int).drop_first() =~= parts.skip(i + 1));
            }
            let ghost before = *self;
            let put = self.put_bytes(piece);
            proof {
                lemma_put_bytes_front(before, *self, piece@, put);
            }
            match put {
                Ok(_) => {},
                Err(error) => {
                    return Err(error);
                },
            }
            i = i + 1;
        }
        proof {
            assert(parts.skip(i as int) =~= Seq::empty());
        }
        Ok(())
    }

    /// Stores an object in chunks of the given size. Whether there is room for all of it
    /// is found out before anything is written.
    pub fn put_object_with_chunk_size(&mut self, data: &[u8], chunk_size: usize) -> (r: Result<
        ObjectId,
        Error,
    >)
        requires
            old(self).wf(),
        ensures
            put_object_right(*old(self), *final(self), data@, chunk_size as nat, r),
    {
        if self.requires_recovery {
            return Err(Error::RequiresRecovery);
        }
        if chunk_size == 0 {
            return Err(Error::InvalidInput("chunk size must be non-zero"));
        }
        if chunk_size as u64 > u32::MAX as u64 {
            return Err(Error::InvalidInput("chunk size exceeds manifest limit"));
        }
        let total_len: usize = data.len();
        let full: usize = total_len / chunk_size;
        proof {
            lemma_not_full(total_len as nat, chunk_size as nat);
        }
        let count: usize = if total_len % chunk_size == 0 {
            full
        } else {
            full + 1
        };
        proof {
            lemma_count(data@.len(), chunk_size as nat);
        }
        if count > MAX_MANIFEST_CHUNKS {
            return Err(Error::InvalidInput("manifest too large"));
        }
        let (chunks, planned) = self.plan_chunks(data, chunk_size, count);
        let planned_end: u64 = match planned {
            Some(end) => end,
            None => {
                return Err(Error::Capacity);
            },
        };
        proof {
            lemma_span_positive(self@.index.dom(), pieces(data@, chunk_size as nat));
        }
        let total: u64 = sum_of(chunks.as_slice());
        let body = manifest_body(chunks.as_slice(), total);
        let manifest = manifest_id(body.as_slice());
        match self.check_room(&chunks, manifest, planned_end) {
            Ok(_) => {},
            Err(error) => {
                return Err(error);
            },
        }
        match self.put_chunks(data, chunk_size, count) {
            Ok(_) => {},
            Err(error) => {
                return Err(error);
            },
        }
        let ghost before = *self;
        let r = self.put_manifest(chunks.as_slice());
        proof {
            lemma_put_manifest_front(before, *self, chunks@, r);
        }
        r
    }

    /// Checks what is there of an object and whether there is room for the rest.
    fn check_room(&mut self, chunks: &Vec<ChunkRef>, manifest: ObjectId, planned_end: u64) -> (r:
        Result<(), Error>)
        requires
            old(self).wf(),
            chunks@.len() <= MAX_MANIFEST_CHUNKS,
        ensures
            same_store(*old(self), *final(self)),
            faulted(r, old(self).device.reliable()) || match room_problem(
                old(self)@,
                old(self).device.contents(),
                chunks@,
                manifest,
                planned_end as int,
            ) {
                Some(error) => r == Err::<(), Error>(error),
                None => r is Ok,
            },
    {
        let there = match self.index.get(&manifest) {
            Some(entry) => {
                if entry.kind != Kind::Manifest {
                    return Err(Error::Corruption("object id collision"));
                }
                true
            },
            None => false,
        };
        if there {
            match read_body(&mut self.device, &self.index, &manifest) {
                Ok(body) => match manifest_layout(body.as_slice()) {
                    Ok(_) => {},
                    Err(error) => {
                        return Err(error);
                    },
                },
                Err(error) => {
                    return Err(error);
                },
            }
        }
        match self.check_present(chunks) {
            Ok(_) => {},
            Err(error) => {
                return Err(error);
            },
        }
        let width: u64 = if there {
            0
        } else {
            match align(64 + 16 + 36 * chunks.len() as u64) {
                Ok(width) => width,
                Err(error) => {
                    return Err(error);
                },
            }
        };
        let capacity: u64 = self.device.len();
        match planned_end.checked_add(width) {
            Some(end) => {
                if end > capacity {
                    return Err(Error::Capacity);
                }
            },
            None => {
                return Err(Error::Capacity);
            },
        }
        Ok(())
    }
}

/// Whether the store knows what it knew, under the same root.
pub open spec fn grown(v: StoreView, w: StoreView) -> bool {
    &&& w.root == v.root
    &&& w.active == v.active
    &&& v.index.submap_of(w.index)
}

/// Whether a power loss leaves the first `limit` bytes that a steady device held before.
pub open spec fn front_kept<D: BlockDevice>(before: D, after: D, limit: int) -> bool {
    before.steady() && saved(before) ==> agree(before.contents(), after.durable(), 0, limit)
}

proof fn lemma_stored_front<D: BlockDevice>(
    before: Store<D>,
    after: Store<D>,
    kind: Kind,
    id: ObjectId,
    bytes: Seq<u8>,
    r: Result<ObjectId, Error>,
)
    requires
        stored(before, after, kind, id, bytes, r),
        !(kind is Root),
    ensures
        r is Ok ==> after@.index.dom().contains(id),
        front_kept(before.device, after.device, before@.append_offset as int),
        r is Ok ==> before@.append_offset <= after@.append_offset,
        grown(before@, after@),
{
    let at = before@.append_offset;
    let c = before.device.contents();
    let payload = object_payload(id@, bytes);
    assert(payload.take(32) =~= id@);
    lemma_object_id(id);
    if append_problem(at, c.len(), payload.len()) is None {
        lemma_with_record_agrees(c, at as int, kind, payload, 0);
    }
}

proof fn lemma_put_bytes_front<D: BlockDevice>(
    before: Store<D>,
    after: Store<D>,
    data: Seq<u8>,
    r: Result<ObjectId, Error>,
)
    requires
        put_bytes_right(before, after, data, r),
    ensures
        front_kept(before.device, after.device, before@.append_offset as int),
        r is Ok ==> before@.append_offset <= after@.append_offset,
        grown(before@, after@),
{
    if !before@.requires_recovery && data.len() <= MAX_PAYLOAD - 32 {
        let id = object_id(chunk_digest(data));
        lemma_stored_front(before, after, Kind::Chunk, id, data, r);
    }
}

proof fn lemma_put_manifest_front<D: BlockDevice>(
    before: Store<D>,
    after: Store<D>,
    chunks: Seq<ChunkRef>,
    r: Result<ObjectId, Error>,
)
    requires
        put_manifest_right(before, after, chunks, r),
    ensures
        front_kept(before.device, after.device, before@.append_offset as int),
        grown(before@, after@),
        r is Ok ==> after@.index.dom().contains(r->Ok_0),
{
    if !before@.requires_recovery && chunks.len() <= MAX_MANIFEST_CHUNKS {
        let bytes = manifest_bytes(chunks);
        let id = object_id(manifest_digest(bytes));
        lemma_stored_front(before, after, Kind::Manifest, id, bytes, r);
    }
}

/// Whether the answer and the store are what storing an object in chunks comes to.
/// Where it is refused, nothing has changed.
pub open spec fn put_object_right<D: BlockDevice>(
    before: Store<D>,
    after: Store<D>,
    data: Seq<u8>,
    size: nat,
    r: Result<ObjectId, Error>,
) -> bool {
    let v = before@;
    let c = before.device.contents();
    &&& after.wf()
    &&& after.device.reliable() == before.device.reliable()
    &&& after.device.contents().len() == c.len()
    &&& carried(before.device, after.device, r is Ok)
    &&& front_kept(before.device, after.device, v.append_offset as int)
    &&& grown(v, after@)
    &&& match put_object_problem(v, c, data, size) {
        Some(error) => same_store(before, after) && (r == Err::<ObjectId, Error>(error) || faulted(
            r,
            before.device.reliable(),
        )),
        None => r is Ok ==> r->Ok_0 == object_id(
            manifest_digest(manifest_bytes(piece_refs(pieces(data, size)))),
        ) && after@.index.dom().contains(r->Ok_0),
    }
    &&& before.device.reliable() || (before.device.steady() && r is Ok) ==> (
        r,
        after@,
        after.device.contents(),
    ) == put_object_outcome(v, c, data, size)
}

proof fn lemma_not_full(len: nat, size: nat)
    requires
        size > 0,
    ensures
        len % size != 0 ==> len / size < len,
{
    let q = len / size;
    let m = len % size;
    if m != 0 {
        assert(q < len) by (nonlinear_arith)
            requires
                q == len / size,
                m == len % size,
                m != 0,
                size > 0,
        ;
    }
}

proof fn lemma_count(len: nat, size: nat)
    requires
        size > 0,
    ensures
        piece_count(len, size) == len / size + (if len % size == 0 {
            0nat
        } else {
            1nat
        }),
{
    let q = len / size;
    let m = len % size;
    assert(len == q * size + m) by (nonlinear_arith)
        requires
            q == len / size,
            m == len % size,
            size > 0,
    ;
    assert(0 <= m < size) by (nonlinear_arith)
        requires
            m == len % size,
            size > 0,
    ;
    if m == 0 {
        assert((len + size - 1) as nat / size == q) by (nonlinear_arith)
            requires
                len == q * size,
                size > 0,
        ;
    } else {
        assert((len + size - 1) as nat / size == q + 1) by (nonlinear_arith)
            requires
                len == q * size + m,
                0 < m < size,
                size > 0,
        ;
    }
}

pub proof fn lemma_span_positive(known: Set<ObjectId>, parts: Seq<Seq<u8>>)
    ensures
        chunks_span(known, parts) >= 0,
    decreases parts.len(),
{
    if parts.len() > 0 {
        let id = piece_ref(parts[0]).id;
        lemma_span_positive(known, parts.drop_first());
        lemma_span_positive(known.insert(id), parts.drop_first());
    }
}

/// Records take a multiple of eight bytes.
proof fn lemma_span_adds(at: int, len: nat)
    requires
        at % 8 == 0,
    ensures
        aligned(at + 64 + len) == at + span(len),
{
}

/// Storing the chunks that there is room for does not fail for want of room.
proof fn lemma_chunks_fit(v: StoreView, c: Seq<u8>, parts: Seq<Seq<u8>>)
    requires
        !v.requires_recovery,
        v.append_offset % 8 == 0,
        v.append_offset + chunks_span(v.index.dom(), parts) <= c.len() <= u64::MAX,
    ensures
        ({
            let (r, w, d) = put_pieces(v, c, parts);
            &&& r != Err::<(), Error>(Error::Capacity)
            &&& d.len() == c.len()
            &&& r is Ok ==> {
                &&& w.append_offset == v.append_offset + chunks_span(v.index.dom(), parts)
                &&& w.append_offset % 8 == 0
                &&& !w.requires_recovery
                &&& v.index.dom().subset_of(w.index.dom())
            }
        }),
    decreases parts.len(),
{
    if parts.len() > 0 {
        let piece = parts[0];
        let rest = parts.drop_first();
        let id = piece_ref(piece).id;
        let known = v.index.dom();
        lemma_span_positive(known, rest);
        lemma_span_positive(known.insert(id), rest);
        let (r, w, d) = put_piece(v, c, piece);
        if known.contains(id) {
            if r is Ok {
                lemma_chunks_fit(v, c, rest);
            }
        } else if piece.len() <= MAX_PAYLOAD - 32 {
            let payload = object_payload(id@, piece);
            assert(payload.len() == 32 + piece.len());
            lemma_span_adds(v.append_offset as int, piece.len());
            assert(append_problem(v.append_offset, c.len(), payload.len()) is None);
            crate::engine::format::lemma_header_len(new_header(Kind::Chunk, payload, 0));
            assert(d.len() == c.len());
            assert(r is Ok);
            assert(payload.take(32) =~= id@);
            lemma_object_id(id);
            assert(w.index.dom() =~= known.insert(id));
            lemma_chunks_fit(w, d, rest);
        }
    }
}

/// Whether there is room is found out before anything is written: an object that is
/// not refused does not fail for want of room later.
pub proof fn law_room_is_found_before_writing(v: StoreView, c: Seq<u8>, data: Seq<u8>, size: nat)
    requires
        v.append_offset % 8 == 0,
        c.len() <= u64::MAX,
        put_object_problem(v, c, data, size) is None,
    ensures
        put_object_outcome(v, c, data, size).0 != Err::<ObjectId, Error>(Error::Capacity),
{
    let parts = pieces(data, size);
    let refs = piece_refs(parts);
    let manifest = object_id(manifest_digest(manifest_bytes(refs)));
    lemma_manifest_len(refs);
    lemma_span_positive(v.index.dom(), parts);
    lemma_chunks_fit(v, c, parts);
    let (r, w, d) = put_pieces(v, c, parts);
    if r is Ok && !w.index.dom().contains(manifest) {
        let payload = object_payload(manifest@, manifest_bytes(refs));
        assert(payload.len() == 48 + 36 * refs.len());
        lemma_span_adds(w.append_offset as int, (16 + 36 * refs.len()) as nat);
        assert(append_problem(w.append_offset, d.len(), payload.len()) != Some(Error::Capacity));
    }
}

} // verus!
