//! The store.
use vstd::prelude::*;

use crate::bytes::{
    id_at, le_bytes, le_value, lemma_pow256_values, push_all, push_le, push_range, read_le, same_id,
    splice, zero_bytes, zeros,
};
use crate::device::block::{
    between, faithful, in_bounds, lemma_between_again, lemma_between_two_writes, saved, untouched,
    BlockDevice, DeviceError,
};
use crate::engine::format::{all_zero, lemma_object_id, object_id, ObjectHasher};
use crate::hashing::blake3_digest;
use crate::record_log::format::{
    align, aligned, checksum, header_bytes, header_of, record_checksum, Blake3Hasher, Error,
    Generation, ObjectId, RecordHeader, RecordKind, Root, HEADER_SIZE, MAX_RECORD_PAYLOAD,
};
use crate::table::Table;

verus! {

/// Where the record of each object starts.
pub type Index = Table<ObjectId, u64>;

/// What a log says, up to where it has been read.
#[verifier::ext_equal]
pub struct LogView {
    pub index: Map<ObjectId, u64>,
    pub root: Option<Root>,
    pub append_offset: u64,
}

pub open spec fn empty_log() -> LogView {
    LogView { index: Map::empty(), root: None, append_offset: 0 }
}

/// The record at `at`, whose header fits, or what is wrong with it.
pub open spec fn record_at(c: Seq<u8>, at: int) -> Result<(RecordHeader, Seq<u8>), Error> {
    match header_of(c.subrange(at, at + 32)) {
        Err(error) => Err(error),
        Ok(header) => {
            let next = at + 32 + header.payload_len;
            if next > u64::MAX {
                Err(Error::Corruption("record offset overflow"))
            } else if next > c.len() {
                Err(Error::Corruption("truncated record"))
            } else {
                let payload = c.subrange(at + 32, next);
                if record_checksum(header.kind, header.generation, payload) != header.checksum {
                    Err(Error::Corruption("record checksum mismatch"))
                } else {
                    Ok((header, payload))
                }
            }
        },
    }
}

/// The root that a root commit's payload names.
pub open spec fn root_of(payload: Seq<u8>) -> Root {
    Root {
        generation: le_value(payload.subrange(32, 40)) as u64,
        manifest: object_id(payload.take(32)),
    }
}

/// What the log says with one more record read.
pub open spec fn with_entry(
    v: LogView,
    at: u64,
    kind: RecordKind,
    payload: Seq<u8>,
) -> Result<LogView, Error> {
    match kind {
        RecordKind::RootCommit => {
            let root = root_of(payload);
            if payload.len() != 40 {
                Err(Error::Corruption("invalid root commit"))
            } else if v.root is None || root.generation > v.root->0.generation {
                Ok(LogView { root: Some(root), ..v })
            } else {
                Ok(v)
            }
        },
        _ => if payload.len() < 32 {
            Err(Error::Corruption("object payload too short"))
        } else {
            Ok(LogView { index: v.index.insert(object_id(payload.take(32)), at), ..v })
        },
    }
}

/// What the log says when it is read from `at` on, after what `v` says.
pub open spec fn scan(c: Seq<u8>, at: int, v: LogView) -> Result<LogView, Error>
    decreases c.len() + 8 - at,
{
    if at + 32 > c.len() || c.subrange(at, at + 32) == zeros(32) {
        Ok(LogView { append_offset: at as u64, ..v })
    } else {
        match record_at(c, at) {
            Err(error) => Err(error),
            Ok((header, payload)) => match with_entry(v, at as u64, header.kind, payload) {
                Err(error) => Err(error),
                Ok(more) => if at + 32 + header.payload_len + 7 > u64::MAX {
                    Err(Error::Corruption("offset overflow"))
                } else {
                    scan(c, aligned(at + 32 + header.payload_len), more)
                },
            },
        }
    }
}

/// A failure of the device, which a reliable device does not have.
pub open spec fn faulted<T>(r: Result<T, Error>, reliable: bool) -> bool {
    r matches Err(Error::Device(_)) && !reliable
}

/// The bytes of the object whose record starts at `at`, or why there are none. A read
/// that leaves the device is the device's error.
pub open spec fn object_at(c: Seq<u8>, at: u64, id: ObjectId) -> Result<Seq<u8>, Error> {
    if !in_bounds(at, 32, c.len()) {
        Err(
            Error::Device(
                DeviceError::OutOfBounds { offset: at, len: 32, capacity: c.len() as u64 },
            ),
        )
    } else {
        match header_of(c.subrange(at as int, at + 32)) {
            Err(error) => Err(error),
            Ok(header) => {
                let from = (at + 32) as u64;
                let len = header.payload_len;
                if !in_bounds(from, len as nat, c.len()) {
                    Err(
                        Error::Device(
                            DeviceError::OutOfBounds {
                                offset: from,
                                len: len as usize,
                                capacity: c.len() as u64,
                            },
                        ),
                    )
                } else {
                    let payload = c.subrange(at + 32, at + 32 + len);
                    if record_checksum(header.kind, header.generation, payload) != header.checksum
                        || payload.len() < 32 || payload.take(32) != id@ {
                        Err(Error::Corruption("object verification failed"))
                    } else {
                        Ok(payload.skip(32))
                    }
                }
            },
        }
    }
}

/// The bytes of an object, or why there are none.
pub open spec fn object_bytes(v: LogView, c: Seq<u8>, id: ObjectId) -> Result<Seq<u8>, Error> {
    if !v.index.dom().contains(id) {
        Err(Error::NotFound(id))
    } else {
        object_at(c, v.index[id], id)
    }
}

/// Why a record cannot be written, if it cannot.
pub open spec fn append_problem(at: u64, capacity: nat, payload_len: nat) -> Option<Error> {
    if payload_len > MAX_RECORD_PAYLOAD {
        Some(Error::InvalidInput("payload too large"))
    } else if at + 32 + payload_len > u64::MAX {
        Some(Error::InvalidInput("device offset overflow"))
    } else if at + 32 + payload_len > capacity {
        Some(Error::InvalidInput("device full"))
    } else {
        None
    }
}

/// The header of a record that is written.
pub open spec fn new_header(kind: RecordKind, payload: Seq<u8>, generation: u64) -> RecordHeader {
    RecordHeader {
        kind,
        payload_len: payload.len() as u32,
        generation,
        checksum: record_checksum(kind, generation, payload) as u64,
    }
}

/// The bytes of the device with a record written.
pub open spec fn with_record(
    c: Seq<u8>,
    at: int,
    kind: RecordKind,
    payload: Seq<u8>,
    generation: u64,
) -> Seq<u8> {
    splice(
        splice(c, at, header_bytes(new_header(kind, payload, generation))),
        at + 32,
        payload,
    )
}

/// What the store knows after a record was written: only the index and the end change.
pub open spec fn after_append(v: LogView, kind: RecordKind, payload: Seq<u8>) -> LogView {
    LogView {
        append_offset: aligned(v.append_offset + 32 + payload.len()) as u64,
        index: if kind is RootCommit {
            v.index
        } else {
            v.index.insert(object_id(payload.take(32)), v.append_offset)
        },
        ..v
    }
}

/// Whether the log can go on after a record of the given length.
pub open spec fn goes_on(v: LogView, payload_len: nat) -> bool {
    v.append_offset + 32 + payload_len + 7 <= u64::MAX
}

/// Whether a power loss leaves nothing but part of the record that was to be appended
/// behind what a steady device held before.
pub open spec fn append_leaves<D: BlockDevice>(
    before: Store<D>,
    after: Store<D>,
    kind: RecordKind,
    payload: Seq<u8>,
    generation: u64,
) -> bool {
    let at = before@.append_offset;
    let c = before.device.contents();
    before.device.steady() && saved(before.device) ==> if append_problem(
        at,
        c.len(),
        payload.len(),
    ) is Some {
        after.device.durable() == c
    } else {
        between(
            after.device.durable(),
            c,
            with_record(c, at as int, kind, payload, generation),
        )
    }
}

/// Whether the answer and the store are what appending a record comes to. A device that
/// is not reliable may fail it, and then says nothing of what it holds.
pub open spec fn append_right<D: BlockDevice>(
    before: Store<D>,
    after: Store<D>,
    kind: RecordKind,
    payload: Seq<u8>,
    generation: u64,
    r: Result<u64, Error>,
) -> bool {
    let v = before@;
    let c = before.device.contents();
    &&& after.wf()
    &&& after.device.reliable() == before.device.reliable()
    &&& after.device.contents().len() == c.len()
    &&& before.device.steady() ==> after.device.steady() && (r is Ok ==> saved(after.device))
    &&& append_leaves(before, after, kind, payload, generation)
    &&& match append_problem(v.append_offset, c.len(), payload.len()) {
        Some(error) => r == Err::<u64, Error>(error) && after@ == v && after.device.contents() == c,
        None => {
            ||| faulted(r, before.device.reliable()) && after@ == v
            ||| {
                &&& faithful(before.device) ==> after.device.contents() == with_record(
                    c,
                    v.append_offset as int,
                    kind,
                    payload,
                    generation,
                )
                &&& if goes_on(v, payload.len()) {
                    r == Ok::<u64, Error>(v.append_offset) && after@ == after_append(
                        v,
                        kind,
                        payload,
                    )
                } else {
                    r == Err::<u64, Error>(Error::Corruption("offset overflow")) && after@ == v
                }
            }
        },
    }
}

/// The payload of a root commit.
pub open spec fn root_payload(manifest: ObjectId, generation: u64) -> Seq<u8> {
    manifest@ + le_bytes(generation as nat, 8)
}

/// Why a root cannot be committed, if it cannot.
pub open spec fn commit_problem(v: LogView, manifest: ObjectId, generation: u64) -> Option<Error> {
    if !v.index.dom().contains(manifest) {
        Some(Error::NotFound(manifest))
    } else if v.root is Some && generation <= v.root->0.generation {
        Some(Error::InvalidInput("root generation must increase"))
    } else {
        None
    }
}

/// What the store knows after a root was committed.
pub open spec fn committed(v: LogView, manifest: ObjectId, generation: u64) -> LogView {
    LogView {
        root: Some(Root { generation, manifest }),
        ..after_append(v, RecordKind::RootCommit, root_payload(manifest, generation))
    }
}

/// Whether the answer and the store are what storing some bytes comes to.
pub open spec fn put_right<D: BlockDevice>(
    before: Store<D>,
    after: Store<D>,
    data: Seq<u8>,
    r: Result<ObjectId, Error>,
) -> bool {
    let id = blake3_digest(data);
    let written = match r {
        Ok(found) => Ok(before@.append_offset),
        Err(error) => Err(error),
    };
    &&& r is Ok ==> r->Ok_0 == id
    &&& if before@.index.dom().contains(id) {
        r == Ok::<ObjectId, Error>(id) && after == before
    } else {
        append_right(before, after, RecordKind::Chunk, id@ + data, 0, written)
    }
}

/// Whether the answer and the store are what committing a root comes to. A device that is
/// not reliable may fail the commit before or after the record counts as written.
pub open spec fn commit_right<D: BlockDevice>(
    before: Store<D>,
    after: Store<D>,
    manifest: ObjectId,
    generation: u64,
    r: Result<Root, Error>,
) -> bool {
    let v = before@;
    let c = before.device.contents();
    let payload = root_payload(manifest, generation);
    let problem = match commit_problem(v, manifest, generation) {
        Some(error) => Some(error),
        None => append_problem(v.append_offset, c.len(), payload.len()),
    };
    &&& after.wf()
    &&& after.device.reliable() == before.device.reliable()
    &&& after.device.contents().len() == c.len()
    &&& before.device.steady() ==> after.device.steady() && (r is Ok ==> saved(after.device))
    &&& if commit_problem(v, manifest, generation) is Some {
        untouched(before.device, after.device)
    } else {
        append_leaves(before, after, RecordKind::RootCommit, payload, generation)
    }
    &&& match problem {
        Some(error) => r == Err::<Root, Error>(error) && after@ == v && after.device.contents()
            == c,
        None => {
            ||| faulted(r, before.device.reliable()) && (after@ == v || after@ == after_append(
                v,
                RecordKind::RootCommit,
                payload,
            ))
            ||| {
                &&& faithful(before.device) ==> after.device.contents() == with_record(
                    c,
                    v.append_offset as int,
                    RecordKind::RootCommit,
                    payload,
                    generation,
                )
                &&& if goes_on(v, payload.len()) {
                    r == Ok::<Root, Error>(Root { generation, manifest }) && after@ == committed(
                        v,
                        manifest,
                        generation,
                    )
                } else {
                    r == Err::<Root, Error>(Error::Corruption("offset overflow")) && after@ == v
                }
            }
        },
    }
}

pub struct Store<D: BlockDevice> {
    pub device: D,
    pub index: Index,
    pub root: Option<Root>,
    pub append_offset: u64,
}

impl<D: BlockDevice> View for Store<D> {
    type V = LogView;

    open spec fn view(&self) -> LogView {
        LogView { index: self.index@, root: self.root, append_offset: self.append_offset }
    }
}

impl<D: BlockDevice> Store<D> {
    pub open spec fn wf(&self) -> bool {
        self.device.wf()
    }

    /// An empty store on a device, of which nothing is read or written.
    pub fn format(device: D) -> (r: Result<Self, Error>)
        requires
            device.wf(),
        ensures
            if device.contents().len() < 4096 {
                r == Err::<Self, Error>(Error::InvalidInput("device too small"))
            } else {
                r is Ok && r->Ok_0.wf() && r->Ok_0@ == empty_log() && r->Ok_0.device == device
            },
    {
        if device.len() < 4096 {
            return Err(Error::InvalidInput("device too small"));
        }
        Ok(Store { device, index: Table::new(), root: None, append_offset: 0 })
    }

    /// The store that the log on the device describes.
    #[verifier::rlimit(30)]
    pub fn open(device: D) -> (r: Result<Self, Error>)
        requires
            device.wf(),
        ensures
            if device.contents().len() < 4096 {
                r == Err::<Self, Error>(Error::InvalidInput("device too small"))
            } else {
                faulted(r, device.reliable()) || match scan(device.contents(), 0, empty_log()) {
                    Err(error) => r == Err::<Self, Error>(error),
                    Ok(v) => r is Ok && r->Ok_0.wf() && r->Ok_0@ == v && untouched(
                        device,
                        r->Ok_0.device,
                    ),
                }
            },
    {
        let ghost c = device.contents();
        let ghost reliable = device.reliable();
        let mut store = match Store::format(device) {
            Ok(store) => store,
            Err(error) => {
                return Err(error);
            },
        };
        let end: u64 = store.device.len();
        let mut offset: u64 = 0;
        while end >= 32 && offset <= end - 32
            invariant
                store.wf(),
                untouched(device, store.device),
                end == c.len(),
                end >= 4096,
                device.contents() == c,
                device.reliable() == reliable,
                store.append_offset == 0,
                scan(c, 0, empty_log()) == scan(c, offset as int, store@),
            ensures
                offset + 32 > c.len() || c.subrange(offset as int, offset + 32) == zeros(32),
            decreases end + 8 - offset,
        {
            let mut raw: Vec<u8> = zero_bytes(HEADER_SIZE);
            match store.device.read_at(offset, raw.as_mut_slice()) {
                Err(error) => {
                    return Err(Error::Device(error));
                },
                Ok(_) => {},
            }
            proof {
                assert(raw@ =~= c.subrange(offset as int, offset + 32));
            }
            if all_zero(raw.as_slice()) {
                break;
            }
            let header = match RecordHeader::decode(raw.as_slice()) {
                Ok(header) => header,
                Err(error) => {
                    return Err(error);
                },
            };
            let next: u64 = match (offset + 32).checked_add(header.payload_len as u64) {
                Some(next) => next,
                None => {
                    return Err(Error::Corruption("record offset overflow"));
                },
            };
            if next > end {
                return Err(Error::Corruption("truncated record"));
            }
            let mut payload: Vec<u8> = zero_bytes(header.payload_len as usize);
            match store.device.read_at(offset + 32, payload.as_mut_slice()) {
                Err(error) => {
                    return Err(Error::Device(error));
                },
                Ok(_) => {},
            }
            proof {
                assert(payload@ =~= c.subrange(offset + 32, next as int));
            }
            if checksum(&header, payload.as_slice()) != header.checksum {
                return Err(Error::Corruption("record checksum mismatch"));
            }
            match store.take_entry(offset, header.kind, payload.as_slice()) {
                Ok(_) => {},
                Err(error) => {
                    return Err(error);
                },
            }
            offset = match align(next) {
                Ok(offset) => offset,
                Err(error) => {
                    return Err(error);
                },
            };
        }
        store.append_offset = offset;
        Ok(store)
    }

    /// Takes in what a record says.
    fn take_entry(&mut self, at: u64, kind: RecordKind, payload: &[u8]) -> (r: Result<(), Error>)
        ensures
            final(self).device == old(self).device,
            match with_entry(old(self)@, at, kind, payload@) {
                Err(error) => r == Err::<(), Error>(error),
                Ok(more) => r is Ok && final(self)@ == more,
            },
    {
        match kind {
            RecordKind::RootCommit => {
                if payload.len() != 40 {
                    return Err(Error::Corruption("invalid root commit"));
                }
                let manifest = id_at(payload, 0);
                proof {
                    assert(payload@.subrange(0, 32) =~= payload@.take(32));
                    lemma_object_id(manifest);
                    lemma_pow256_values();
                }
                let generation: u64 = read_le(payload, 32, 8);
                let newer = match &self.root {
                    Some(root) => generation > root.generation,
                    None => true,
                };
                if newer {
                    self.root = Some(Root { generation, manifest });
                }
            },
            _ => {
                if payload.len() < 32 {
                    return Err(Error::Corruption("object payload too short"));
                }
                let id = id_at(payload, 0);
                proof {
                    assert(payload@.subrange(0, 32) =~= payload@.take(32));
                    lemma_object_id(id);
                }
                self.index.insert(id, at);
            },
        }
        Ok(())
    }

    pub fn current_root(&self) -> (root: Option<Root>)
        ensures
            root == self@.root,
    {
        self.root
    }

    /// Stores some bytes under their digest. Bytes that are there are not written again.
    pub fn put_bytes(&mut self, data: &[u8]) -> (r: Result<ObjectId, Error>)
        requires
            old(self).wf(),
            32 + data@.len() <= usize::MAX,
        ensures
            put_right(*old(self), *final(self), data@, r),
    {
        let id = Blake3Hasher.hash(data);
        if self.index.contains_key(&id) {
            return Ok(id);
        }
        let mut payload: Vec<u8> = Vec::new();
        push_all(&mut payload, id.as_slice());
        push_all(&mut payload, data);
        proof {
            assert(payload@ =~= id@ + data@);
        }
        match self.append(RecordKind::Chunk, payload.as_slice(), 0) {
            Ok(_) => Ok(id),
            Err(error) => Err(error),
        }
    }

    /// The bytes of an object.
    pub fn get_bytes(&mut self, id: &ObjectId) -> (r: Result<Vec<u8>, Error>)
        requires
            old(self).wf(),
        ensures
            final(self).wf(),
            final(self)@ == old(self)@,
            untouched(old(self).device, final(self).device),
            faulted(r, old(self).device.reliable()) || match object_bytes(
                old(self)@,
                old(self).device.contents(),
                *id,
            ) {
                Err(error) => r == Err::<Vec<u8>, Error>(error),
                Ok(bytes) => r is Ok && r->Ok_0@ == bytes,
            },
    {
        let ghost c = self.device.contents();
        let offset: u64 = match self.index.get(id) {
            Some(offset) => *offset,
            None => {
                return Err(Error::NotFound(*id));
            },
        };
        let mut raw: Vec<u8> = zero_bytes(HEADER_SIZE);
        match self.device.read_at(offset, raw.as_mut_slice()) {
            Err(error) => {
                return Err(Error::Device(error));
            },
            Ok(_) => {},
        }
        let capacity: u64 = self.device.len();
        proof {
            assert(raw@ =~= c.subrange(offset as int, offset + 32));
        }
        let header = match RecordHeader::decode(raw.as_slice()) {
            Ok(header) => header,
            Err(error) => {
                return Err(error);
            },
        };
        let mut payload: Vec<u8> = zero_bytes(header.payload_len as usize);
        match self.device.read_at(offset + 32, payload.as_mut_slice()) {
            Err(error) => {
                return Err(Error::Device(error));
            },
            Ok(_) => {},
        }
        proof {
            assert(payload@ =~= c.subrange(offset + 32, offset + 32 + header.payload_len));
        }
        if checksum(&header, payload.as_slice()) != header.checksum || payload.len() < 32 {
            return Err(Error::Corruption("object verification failed"));
        }
        let found = id_at(payload.as_slice(), 0);
        proof {
            assert(payload@.subrange(0, 32) =~= payload@.take(32));
        }
        if !same_id(&found, id) {
            return Err(Error::Corruption("object verification failed"));
        }
        let mut bytes: Vec<u8> = Vec::new();
        push_range(&mut bytes, payload.as_slice(), 32, payload.len());
        proof {
            assert(bytes@ =~= payload@.skip(32));
        }
        Ok(bytes)
    }

    /// Makes a stored object the root, under a generation above the last.
    pub fn commit_root(&mut self, manifest: ObjectId, generation: Generation) -> (r: Result<
        Root,
        Error,
    >)
        requires
            old(self).wf(),
        ensures
            commit_right(*old(self), *final(self), manifest, generation, r),
    {
        if !self.index.contains_key(&manifest) {
            return Err(Error::NotFound(manifest));
        }
        match &self.root {
            Some(root) => {
                if generation <= root.generation {
                    return Err(Error::InvalidInput("root generation must increase"));
                }
            },
            None => {},
        }
        let mut payload: Vec<u8> = Vec::new();
        push_all(&mut payload, manifest.as_slice());
        push_le(&mut payload, generation, 8);
        proof {
            assert(payload@ =~= root_payload(manifest, generation));
        }
        match self.append(RecordKind::RootCommit, payload.as_slice(), generation) {
            Ok(_) => {},
            Err(error) => {
                return Err(error);
            },
        }
        match self.device.flush_all() {
            Ok(_) => {},
            Err(error) => {
                return Err(Error::Device(error));
            },
        }
        let root = Root { generation, manifest };
        self.root = Some(root);
        Ok(root)
    }

    /// Appends a record.
    fn append(&mut self, kind: RecordKind, payload: &[u8], generation: u64) -> (r: Result<
        u64,
        Error,
    >)
        requires
            old(self).wf(),
            !(kind is RootCommit) ==> payload@.len() >= 32,
        ensures
            append_right(*old(self), *final(self), kind, payload@, generation, r),
    {
        if payload.len() as u64 > MAX_RECORD_PAYLOAD {
            return Err(Error::InvalidInput("payload too large"));
        }
        let mut header = RecordHeader {
            kind,
            payload_len: payload.len() as u32,
            generation,
            checksum: 0,
        };
        header.checksum = checksum(&header, payload);
        proof {
            assert(header == new_header(kind, payload@, generation));
        }
        let at: u64 = self.append_offset;
        let end: u64 = match at.checked_add(32 + payload.len() as u64) {
            Some(end) => end,
            None => {
                return Err(Error::InvalidInput("device offset overflow"));
            },
        };
        if end > self.device.len() {
            return Err(Error::InvalidInput("device full"));
        }
        let front = header.encode();
        let ghost c = self.device.contents();
        let ghost steady = self.device.steady() && saved(self.device);
        let ghost whole = with_record(c, at as int, kind, payload@, generation);
        let wrote = self.device.write_at(at, front.as_slice());
        let ghost first = self.device.durable();
        proof {
            if steady {
                lemma_between_two_writes(first, first, c, at as int, front@, payload@);
            }
        }
        match wrote {
            Err(error) => {
                return Err(Error::Device(error));
            },
            Ok(_) => {},
        }
        let wrote = self.device.write_at(at + 32, payload);
        let ghost second = self.device.durable();
        proof {
            if steady {
                lemma_between_two_writes(first, second, c, at as int, front@, payload@);
            }
        }
        match wrote {
            Err(error) => {
                return Err(Error::Device(error));
            },
            Ok(_) => {},
        }
        let flushed = self.device.flush_data();
        proof {
            if steady {
                lemma_between_again(second, self.device.durable(), c, whole);
            }
        }
        match flushed {
            Err(error) => {
                return Err(Error::Device(error));
            },
            Ok(_) => {},
        }
        let next: u64 = match align(end) {
            Ok(next) => next,
            Err(error) => {
                return Err(error);
            },
        };
        self.append_offset = next;
        if kind != RecordKind::RootCommit {
            let id = id_at(payload, 0);
            proof {
                assert(payload@.subrange(0, 32) =~= payload@.take(32));
                lemma_object_id(id);
            }
            self.index.insert(id, at);
        }
        Ok(at)
    }
}

} // verus!
