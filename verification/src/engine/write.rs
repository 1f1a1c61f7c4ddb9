//! Reading and writing objects, and committing roots.
use vstd::prelude::*;

use crate::bytes::{id_at, push_all};
use crate::device::block::{
    between, carried, faithful, lemma_between_again, lemma_between_two_writes, saved, untouched,
    BlockDevice,
};
use crate::engine::format::{
    chunk_digest, chunk_id, front_value, lemma_header_len, lemma_object_id, manifest_body,
    manifest_bytes, manifest_digest, manifest_id, manifest_layout, object_id, ChunkRef, Error,
    Header, Kind, Object, ObjectId, Root, MAX_MANIFEST_CHUNKS, MAX_PAYLOAD,
};
use crate::engine::log::{
    after_append, append_problem, body_of, chunk_bytes, chunk_problem, joined, manifest_of,
    manifest_problem, new_header, object_bytes, poisoned, with_record, Entry, Index, StoreView,
};
use crate::engine::store::{
    align, check_chunk, check_manifest, faulted, read_body, read_chunk, read_refs, sum_of, Store,
};

verus! {

/// The payload of an object's record: its identifier and its bytes.
pub open spec fn object_payload(id: Seq<u8>, bytes: Seq<u8>) -> Seq<u8> {
    id + bytes
}

/// Whether a power loss leaves nothing but part of the record that was to be appended
/// behind what a steady device held before.
pub open spec fn append_leaves<D: BlockDevice>(
    before: Store<D>,
    after: Store<D>,
    kind: Kind,
    payload: Seq<u8>,
    generation: u64,
) -> bool {
    let at = before@.append_offset;
    let c = before.device.contents();
    before.device.steady() && saved(before.device) ==> if append_problem(
        at,
        c.len(),
        payload.len(),
    ) is Some {
        after.device.durable() == c
    } else {
        between(
            after.device.durable(),
            c,
            with_record(c, at as int, kind, payload, generation),
        )
    }
}

/// Whether the answer and the store are what an append comes to. A device that is not
/// reliable may fail it, and then says nothing of what it holds.
pub open spec fn append_right<D: BlockDevice>(
    before: Store<D>,
    after: Store<D>,
    kind: Kind,
    payload: Seq<u8>,
    generation: u64,
    r: Result<u64, Error>,
) -> bool {
    let v = before@;
    &&& after.wf()
    &&& after.device.reliable() == before.device.reliable()
    &&& after.device.contents().len() == before.device.contents().len()
    &&& before.device.steady() ==> after.device.steady() && (r is Ok ==> saved(after.device))
    &&& append_leaves(before, after, kind, payload, generation)
    &&& match append_problem(v.append_offset, before.device.contents().len(), payload.len()) {
        Some(error) => r == Err::<u64, Error>(error) && after@ == v && after.device.contents()
            == before.device.contents(),
        None => match r {
            Ok(at) => at == v.append_offset && after@ == after_append(v, kind, payload, generation)
                && (faithful(
                before.device,
            ) ==> after.device.contents() == with_record(
                before.device.contents(),
                v.append_offset as int,
                kind,
                payload,
                generation,
            )),
            Err(error) => error is Device && !before.device.reliable() && after@ == v,
        },
    }
}

/// What a request to store an object answers without writing, if it does.
pub open spec fn known_object(
    v: StoreView,
    c: Seq<u8>,
    kind: Kind,
    id: ObjectId,
    len: nat,
) -> Option<Result<ObjectId, Error>> {
    if !v.index.dom().contains(id) {
        None
    } else if v.index[id].kind != kind {
        Some(Err(Error::Corruption("object id collision")))
    } else if kind is Chunk {
        match chunk_problem(v.index, c, ChunkRef { id, len: len as u32 }) {
            Some(error) => Some(Err(error)),
            None => Some(Ok(id)),
        }
    } else {
        match body_of(v.index, c, id) {
            Err(error) => Some(Err(error)),
            Ok(body) => match crate::engine::format::layout_of(body) {
                Err(error) => Some(Err(error)),
                Ok(_) => Some(Ok(id)),
            },
        }
    }
}

/// Whether the answer and the store are what storing an object comes to. An object
/// that is there is checked and not written again; a write that fails for want of room
/// leaves the store as it is, and any other failed write leaves it to be opened anew.
pub open spec fn stored<D: BlockDevice>(
    before: Store<D>,
    after: Store<D>,
    kind: Kind,
    id: ObjectId,
    bytes: Seq<u8>,
    r: Result<ObjectId, Error>,
) -> bool {
    let v = before@;
    let c = before.device.contents();
    let payload = object_payload(id@, bytes);
    &&& after.wf()
    &&& after.device.reliable() == before.device.reliable()
    &&& after.device.contents().len() == c.len()
    &&& carried(before.device, after.device, r is Ok)
    &&& match known_object(v, c, kind, id, bytes.len()) {
        Some(known) => after@ == v && untouched(before.device, after.device) && (r == known || faulted(
            r,
            before.device.reliable(),
        )),
        None => append_leaves(before, after, kind, payload, 0) && match append_problem(
            v.append_offset,
            c.len(),
            payload.len(),
        ) {
            Some(error) => r == Err::<ObjectId, Error>(error) && after.device.contents() == c
                && after@ == if error is Capacity {
                v
            } else {
                poisoned(v)
            },
            None => match r {
                Ok(found) => found == id && after@ == after_append(v, kind, payload, 0) && (
                faithful(
                    before.device,
                ) ==> after.device.contents() == with_record(
                    c,
                    v.append_offset as int,
                    kind,
                    payload,
                    0,
                )),
                Err(error) => error is Device && !before.device.reliable() && after@ == poisoned(
                    v,
                ),
            },
        },
    }
}

/// Whether the answer and the store are what storing a chunk comes to.
pub open spec fn put_bytes_right<D: BlockDevice>(
    before: Store<D>,
    after: Store<D>,
    data: Seq<u8>,
    r: Result<ObjectId, Error>,
) -> bool {
    if before@.requires_recovery {
        r == Err::<ObjectId, Error>(Error::RequiresRecovery) && same_store(before, after)
    } else if data.len() > MAX_PAYLOAD - 32 {
        r == Err::<ObjectId, Error>(Error::InvalidInput("object too large")) && same_store(
            before,
            after,
        )
    } else {
        stored(
            before,
            after,
            Kind::Chunk,
            object_id(chunk_digest(data)),
            data,
            r,
        )
    }
}

/// Whether the answer and the store are what storing a manifest comes to.
pub open spec fn put_manifest_right<D: BlockDevice>(
    before: Store<D>,
    after: Store<D>,
    chunks: Seq<ChunkRef>,
    r: Result<ObjectId, Error>,
) -> bool {
    if before@.requires_recovery {
        r == Err::<ObjectId, Error>(Error::RequiresRecovery) && same_store(before, after)
    } else if chunks.len() > MAX_MANIFEST_CHUNKS {
        r == Err::<ObjectId, Error>(Error::InvalidInput("manifest too large")) && same_store(
            before,
            after,
        )
    } else {
        stored(
            before,
            after,
            Kind::Manifest,
            object_id(manifest_digest(manifest_bytes(chunks))),
            manifest_bytes(chunks),
            r,
        )
    }
}

/// Whether nothing about the store has changed.
pub open spec fn same_store<D: BlockDevice>(before: Store<D>, after: Store<D>) -> bool {
    after.wf() && after@ == before@ && untouched(before.device, after.device)
}

impl<D: BlockDevice> Store<D> {
    /// Appends a record.
    pub(crate) fn append(&mut self, kind: Kind, payload: &[u8], generation: u64) -> (r: Result<u64, Error>)
        requires
            old(self).wf(),
            !(kind is Root) ==> payload@.len() >= 32,
        ensures
            append_right(*old(self), *final(self), kind, payload@, generation, r),
    {
        if payload.len() as u64 > MAX_PAYLOAD {
            return Err(Error::InvalidInput("payload too large"));
        }
        let len: u32 = payload.len() as u32;
        let mut header = Header { kind, len, generation, checksum: 0 };
        let digest = header.digest(payload);
        header.checksum = front_value(&digest);
        proof {
            assert(header == new_header(kind, payload@, generation));
        }
        let at: u64 = self.append_offset;
        let end: u64 = match at.checked_add(32 + payload.len() as u64) {
            Some(end) => end,
            None => {
                return Err(Error::InvalidInput("offset overflow"));
            },
        };
        let next: u64 = match align(end) {
            Ok(next) => next,
            Err(error) => {
                return Err(error);
            },
        };
        if next > self.device.len() {
            return Err(Error::Capacity);
        }
        let front = header.encode();
        let ghost c = self.device.contents();
        let ghost steady = self.device.steady() && saved(self.device);
        let ghost whole = with_record(c, at as int, kind, payload@, generation);
        proof {
            lemma_header_len(header);
        }
        let wrote = self.device.write_at(at, front.as_slice());
        let ghost first = self.device.durable();
        proof {
            if steady {
                lemma_between_two_writes(first, first, c, at as int, front@, payload@);
            }
        }
        match wrote {
            Err(error) => {
                return Err(Error::Device(error));
            },
            Ok(_) => {},
        }
        let wrote = self.device.write_at(at + 32, payload);
        let ghost second = self.device.durable();
        proof {
            if steady {
                lemma_between_two_writes(first, second, c, at as int, front@, payload@);
            }
        }
        match wrote {
            Err(error) => {
                return Err(Error::Device(error));
            },
            Ok(_) => {},
        }
        let flushed = self.device.flush_data();
        proof {
            if steady {
                lemma_between_again(second, self.device.durable(), c, whole);
            }
        }
        match flushed {
            Err(error) => {
                return Err(Error::Device(error));
            },
            Ok(_) => {},
        }
        self.append_offset = next;
        if kind != Kind::Root {
            let id = id_at(payload, 0);
            proof {
                assert(payload@.subrange(0, 32) =~= payload@.take(32));
                lemma_object_id(id);
            }
            if !self.index.contains_key(&id) {
                self.index.insert(id, Entry { offset: at, kind, len });
            }
        }
        Ok(at)
    }

    /// Writes an object that is not there yet.
    fn store_object(&mut self, kind: Kind, id: ObjectId, bytes: &[u8]) -> (r: Result<
        ObjectId,
        Error,
    >)
        requires
            old(self).wf(),
            !old(self)@.index.dom().contains(id),
            bytes@.len() <= MAX_PAYLOAD - 32,
            !(kind is Root),
        ensures
            stored(*old(self), *final(self), kind, id, bytes@, r),
    {
        let mut payload: Vec<u8> = Vec::new();
        push_all(&mut payload, id.as_slice());
        push_all(&mut payload, bytes);
        proof {
            assert(payload@ =~= object_payload(id@, bytes@));
        }
        match self.append(kind, payload.as_slice(), 0) {
            Ok(_) => Ok(id),
            Err(Error::Capacity) => Err(Error::Capacity),
            Err(error) => {
                self.requires_recovery = true;
                Err(error)
            },
        }
    }

    /// Stores a chunk. One that is there already is checked instead.
    pub fn put_bytes(&mut self, data: &[u8]) -> (r: Result<ObjectId, Error>)
        requires
            old(self).wf(),
        ensures
            put_bytes_right(*old(self), *final(self), data@, r),
    {
        if self.requires_recovery {
            return Err(Error::RequiresRecovery);
        }
        if data.len() as u64 > MAX_PAYLOAD - 32 {
            return Err(Error::InvalidInput("object too large"));
        }
        let id = chunk_id(data);
        match self.index.get(&id) {
            Some(entry) => {
                if entry.kind != Kind::Chunk {
                    return Err(Error::Corruption("object id collision"));
                }
                let chunk = ChunkRef { id, len: data.len() as u32 };
                return match check_chunk(&mut self.device, &self.index, &chunk) {
                    Ok(_) => Ok(id),
                    Err(error) => Err(error),
                };
            },
            None => {},
        }
        self.store_object(Kind::Chunk, id, data)
    }

    /// Stores the manifest of an object that is made of the given chunks.
    pub fn put_manifest(&mut self, chunks: &[ChunkRef]) -> (r: Result<ObjectId, Error>)
        requires
            old(self).wf(),
        ensures
            put_manifest_right(*old(self), *final(self), chunks@, r),
    {
        if self.requires_recovery {
            return Err(Error::RequiresRecovery);
        }
        if chunks.len() > MAX_MANIFEST_CHUNKS {
            return Err(Error::InvalidInput("manifest too large"));
        }
        let total: u64 = sum_of(chunks);
        let body = manifest_body(chunks, total);
        let id = manifest_id(body.as_slice());
        match self.index.get(&id) {
            Some(entry) => {
                if entry.kind != Kind::Manifest {
                    return Err(Error::Corruption("object id collision"));
                }
                return match read_body(&mut self.device, &self.index, &id) {
                    Ok(found) => match manifest_layout(found.as_slice()) {
                        Ok(_) => Ok(id),
                        Err(error) => Err(error),
                    },
                    Err(error) => Err(error),
                };
            },
            None => {},
        }
        self.store_object(Kind::Manifest, id, body.as_slice())
    }

    /// The bytes of a chunk.
    pub fn get_bytes(&mut self, id: &ObjectId) -> (r: Result<Vec<u8>, Error>)
        requires
            old(self).wf(),
        ensures
            same_store(*old(self), *final(self)),
            faulted(r, old(self).device.reliable()) || match chunk_bytes(
                old(self)@.index,
                old(self).device.contents(),
                *id,
            ) {
                Err(error) => r == Err::<Vec<u8>, Error>(error),
                Ok(bytes) => r is Ok && r->Ok_0@ == bytes,
            },
    {
        read_chunk(&mut self.device, &self.index, id)
    }

    /// The length and the chunks of an object.
    pub fn get_manifest(&mut self, id: &ObjectId) -> (r: Result<Object, Error>)
        requires
            old(self).wf(),
        ensures
            same_store(*old(self), *final(self)),
            faulted(r, old(self).device.reliable()) || match manifest_of(
                old(self)@.index,
                old(self).device.contents(),
                *id,
            ) {
                Err(error) => r == Err::<Object, Error>(error),
                Ok((total, chunks)) => r is Ok && r->Ok_0.id == *id && r->Ok_0.len == total
                    && r->Ok_0.chunks@ == chunks,
            },
    {
        match read_refs(&mut self.device, &self.index, id) {
            Ok((len, chunks)) => Ok(Object { id: *id, len, chunks }),
            Err(error) => Err(error),
        }
    }

    /// Checks whether a manifest can be committed: it and all its chunks are there and
    /// intact.
    pub fn validate_manifest(&mut self, id: &ObjectId) -> (r: Result<(), Error>)
        requires
            old(self).wf(),
        ensures
            same_store(*old(self), *final(self)),
            faulted(r, old(self).device.reliable()) || match manifest_problem(
                old(self)@.index,
                old(self).device.contents(),
                *id,
            ) {
                Some(error) => r == Err::<(), Error>(error),
                None => r is Ok,
            },
    {
        check_manifest(&mut self.device, &self.index, id)
    }

    /// The bytes of an object.
    pub fn read_object(&mut self, id: &ObjectId) -> (r: Result<Vec<u8>, Error>)
        requires
            old(self).wf(),
        ensures
            same_store(*old(self), *final(self)),
            faulted(r, old(self).device.reliable()) || match object_bytes(
                old(self)@.index,
                old(self).device.contents(),
                *id,
            ) {
                Err(error) => r == Err::<Vec<u8>, Error>(error),
                Ok(bytes) => r is Ok && r->Ok_0@ == bytes,
            },
    {
        let ghost c = self.device.contents();
        let (total, chunks) = match read_refs(&mut self.device, &self.index, id) {
            Ok(found) => found,
            Err(error) => {
                return Err(error);
            },
        };
        if total > usize::MAX as u64 {
            return Err(Error::ResourceExhausted("object length does not fit usize"));
        }
        if total > isize::MAX as u64 {
            return Err(Error::ResourceExhausted("object allocation exceeds limit"));
        }
        let bytes = match self.join(&chunks) {
            Ok(bytes) => bytes,
            Err(error) => {
                return Err(error);
            },
        };
        if bytes.len() as u64 != total {
            return Err(Error::Corruption("object length mismatch"));
        }
        Ok(bytes)
    }

    /// The bytes of the chunks one after the other.
    fn join(&mut self, chunks: &Vec<ChunkRef>) -> (r: Result<Vec<u8>, Error>)
        requires
            old(self).wf(),
        ensures
            same_store(*old(self), *final(self)),
            faulted(r, old(self).device.reliable()) || match joined(
                old(self)@.index,
                old(self).device.contents(),
                chunks@,
            ) {
                Err(error) => r == Err::<Vec<u8>, Error>(error),
                Ok(bytes) => r is Ok && r->Ok_0@ == bytes,
            },
    {
        let ghost first = *self;
        let ghost index = self@.index;
        let ghost c = self.device.contents();
        let mut bytes: Vec<u8> = Vec::new();
        let mut i: usize = 0;
        proof {
            assert(chunks@.take(0) =~= Seq::empty());
        }
        while i < chunks.len()
            invariant
                self.wf(),
                same_store(first, *self),
                first == *old(self),
                index == self@.index,
                c == self.device.contents(),
                i <= chunks@.len(),
                joined(index, c, chunks@.take(i as int)) == Ok::<Seq<u8>, Error>(bytes@),
            decreases chunks@.len() - i,
        {
            let chunk = chunks[i];
            proof {
                assert(chunks@.take(i + 1).drop_last() =~= chunks@.take(i as int));
                assert(chunks@.take(i + 1).last() == chunk);
            }
            let data = match read_chunk(&mut self.device, &self.index, &chunk.id) {
                Ok(data) => data,
                Err(error) => {
                    proof {
                        if !faulted(Err::<Vec<u8>, Error>(error), self.device.reliable()) {
                            lemma_joined_error(index, c, chunks@, i + 1);
                        }
                    }
                    return Err(error);
                },
            };
            if data.len() != chunk.len as usize {
                proof {
                    lemma_joined_error(index, c, chunks@, i + 1);
                }
                return Err(Error::Corruption("chunk length mismatch"));
            }
            push_all(&mut bytes, data.as_slice());
            i = i + 1;
        }
        proof {
            assert(chunks@.take(i as int) =~= chunks@);
        }
        Ok(bytes)
    }

    /// The bytes of the committed object, if a root is committed.
    pub fn read_root(&mut self) -> (r: Result<Option<Vec<u8>>, Error>)
        requires
            old(self).wf(),
        ensures
            same_store(*old(self), *final(self)),
            match old(self)@.root {
                None => r == Ok::<Option<Vec<u8>>, Error>(None),
                Some(root) => faulted(r, old(self).device.reliable()) || match object_bytes(
                    old(self)@.index,
                    old(self).device.contents(),
                    root.manifest,
                ) {
                    Err(error) => r == Err::<Option<Vec<u8>>, Error>(error),
                    Ok(bytes) => r matches Ok(Some(found)) && found@ == bytes,
                },
            },
    {
        match self.root {
            None => Ok(None),
            Some(root) => match self.read_object(&root.manifest) {
                Ok(bytes) => Ok(Some(bytes)),
                Err(error) => Err(error),
            },
        }
    }
}

/// A problem with the front of a list is a problem with the list.
pub proof fn lemma_joined_error(index: Index, c: Seq<u8>, chunks: Seq<ChunkRef>, n: int)
    requires
        0 <= n <= chunks.len(),
        joined(index, c, chunks.take(n)) is Err,
    ensures
        joined(index, c, chunks) == joined(index, c, chunks.take(n)),
    decreases chunks.len() - n,
{
    if n == chunks.len() {
        assert(chunks.take(n) =~= chunks);
    } else {
        assert(chunks.take(n + 1).drop_last() =~= chunks.take(n));
        lemma_joined_error(index, c, chunks, n + 1);
    }
}

} // verus!
