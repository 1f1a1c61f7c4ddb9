//! What the bytes of a device say: records, the index over them, and superblocks.
use vstd::prelude::*;

use crate::bytes::{splice, zeros};
use crate::device::block::DeviceError;
use crate::engine::format::{
    chunk_digest, header_bytes, header_of, layout_of, manifest_digest, object_id, record_checksum,
    record_digest, ref_at, super_of, total_len, ChunkRef, Error, Header, Kind, ObjectId, Root,
    Super, MAX_PAYLOAD, RECORDS_START,
};
use crate::first::first_some;

verus! {

/// Where the record of an object is.
#[derive(Clone, Copy, Debug, PartialEq, Eq, Structural)]
pub struct Entry {
    pub offset: u64,
    pub kind: Kind,
    pub len: u32,
}

pub type Index = Map<ObjectId, Entry>;

/// What a store knows besides the bytes of its device.
#[verifier::ext_equal]
pub struct StoreView {
    pub index: Index,
    pub root: Option<Root>,
    pub append_offset: u64,
    pub active: u8,
    pub requires_recovery: bool,
}

/// The next multiple of eight.
pub open spec fn aligned(n: int) -> int {
    (n + 7) / 8 * 8
}

/// The record at an offset, or what is wrong with it.
pub open spec fn record_at(c: Seq<u8>, off: int) -> Result<(Header, Seq<u8>), Error> {
    if off % 8 != 0 || off < RECORDS_START || off + 32 > c.len() {
        Err(Error::Corruption("record offset"))
    } else {
        match header_of(c.subrange(off, off + 32)) {
            Err(error) => Err(error),
            Ok(header) => if off + 32 + header.len > c.len() {
                Err(Error::Corruption("truncated record"))
            } else {
                let payload = c.subrange(off + 32, off + 32 + header.len);
                if record_checksum(header.kind, header.generation, payload) != header.checksum {
                    Err(Error::Corruption("record checksum"))
                } else {
                    Ok((header, payload))
                }
            },
        }
    }
}

/// What is wrong with a record as that of an object, if anything.
pub open spec fn object_problem(kind: Kind, payload: Seq<u8>) -> Option<Error> {
    if kind is Root {
        None
    } else if payload.len() < 32 {
        Some(Error::Corruption("object payload"))
    } else {
        let digest = match kind {
            Kind::Chunk => chunk_digest(payload.skip(32)),
            _ => manifest_digest(payload.skip(32)),
        };
        if digest == payload.take(32) {
            None
        } else {
            Some(Error::Corruption("object hash"))
        }
    }
}

/// The index with a record added, unless its object is there already.
pub open spec fn indexed(index: Index, off: u64, header: Header, payload: Seq<u8>) -> Index {
    let id = object_id(payload.take(32));
    if header.kind is Root || index.dom().contains(id) {
        index
    } else {
        index.insert(id, Entry { offset: off, kind: header.kind, len: header.len })
    }
}

/// The index over the records from `o` up to `end`, which they must fill.
pub open spec fn scan_log(c: Seq<u8>, o: int, end: int, index: Index) -> Result<Index, Error>
    decreases end - o,
{
    if o >= end {
        if o == end {
            Ok(index)
        } else {
            Err(Error::Corruption("committed prefix"))
        }
    } else {
        match record_at(c, o) {
            Err(error) => Err(error),
            Ok((header, payload)) => {
                let next = aligned(o + 32 + payload.len());
                if o + 32 + payload.len() + 7 > u64::MAX {
                    Err(Error::Corruption("offset overflow"))
                } else if next > end {
                    Err(Error::Corruption("committed boundary"))
                } else {
                    match object_problem(header.kind, payload) {
                        Some(error) => Err(error),
                        None => scan_log(
                            c,
                            next,
                            end,
                            indexed(index, o as u64, header, payload),
                        ),
                    }
                }
            },
        }
    }
}

/// Where the records that follow each other from `o` on end.
pub open spec fn tail_of(c: Seq<u8>, o: int) -> Result<int, Error>
    decreases c.len() + 8 - o,
{
    if o + 32 > c.len() || c.subrange(o, o + 32) == zeros(32) {
        Ok(o)
    } else {
        match record_at(c, o) {
            Ok((header, payload)) => if o + 32 + payload.len() + 7 > u64::MAX {
                Err(Error::Corruption("offset overflow"))
            } else {
                tail_of(c, aligned(o + 32 + payload.len()))
            },
            Err(Error::Corruption(_)) => Ok(o),
            Err(error) => Err(error),
        }
    }
}

/// What is wrong with a reference to a chunk, if anything.
pub open spec fn chunk_problem(index: Index, c: Seq<u8>, chunk: ChunkRef) -> Option<Error> {
    if !index.dom().contains(chunk.id) {
        Some(Error::NotFound(chunk.id))
    } else if !(index[chunk.id].kind is Chunk) {
        Some(Error::Corruption("manifest kind"))
    } else {
        match record_at(c, index[chunk.id].offset as int) {
            Err(error) => Some(error),
            Ok((header, payload)) => if payload.len() < 32 || payload.len() - 32 != chunk.len
                || payload.take(32) != chunk.id@ || chunk_digest(payload.skip(32)) != chunk.id@ {
                Some(Error::Corruption("manifest chunk"))
            } else {
                None
            },
        }
    }
}

/// The bytes of a chunk, or why there are none.
pub open spec fn chunk_bytes(index: Index, c: Seq<u8>, id: ObjectId) -> Result<Seq<u8>, Error> {
    if !index.dom().contains(id) {
        Err(Error::NotFound(id))
    } else if !(index[id].kind is Chunk) || index[id].len < 32 {
        Err(Error::Corruption("invalid chunk entry"))
    } else {
        match record_at(c, index[id].offset as int) {
            Err(error) => Err(error),
            Ok((header, payload)) => if payload.len() < 32 || payload.take(32) != id@
                || chunk_digest(payload.skip(32)) != id@ {
                Err(Error::Corruption("chunk hash"))
            } else {
                Ok(payload.skip(32))
            },
        }
    }
}

/// The body of a manifest, or why there is none.
pub open spec fn body_of(index: Index, c: Seq<u8>, id: ObjectId) -> Result<Seq<u8>, Error> {
    if !index.dom().contains(id) {
        Err(Error::NotFound(id))
    } else if !(index[id].kind is Manifest) {
        Err(Error::WrongObjectKind("manifest"))
    } else {
        match record_at(c, index[id].offset as int) {
            Err(error) => Err(error),
            Ok((header, payload)) => if payload.len() < 48 || manifest_digest(payload.skip(32))
                != id@ {
                Err(Error::Corruption("manifest hash"))
            } else {
                Ok(payload.skip(32))
            },
        }
    }
}

/// The references of a manifest.
pub open spec fn refs_of(body: Seq<u8>, count: nat) -> Seq<ChunkRef> {
    Seq::new(count, |i: int| ref_at(body, i))
}

/// The first problem with the references.
pub open spec fn refs_problem(index: Index, c: Seq<u8>, refs: Seq<ChunkRef>) -> Option<Error> {
    first_some(|i: int| chunk_problem(index, c, refs[i]), 0, refs.len() as int)
}

/// The length and the chunks of an object, or why it cannot be read.
pub open spec fn manifest_of(index: Index, c: Seq<u8>, id: ObjectId) -> Result<
    (u64, Seq<ChunkRef>),
    Error,
> {
    match body_of(index, c, id) {
        Err(error) => Err(error),
        Ok(body) => match layout_of(body) {
            Err(error) => Err(error),
            Ok((count, total)) => match refs_problem(index, c, refs_of(body, count)) {
                Some(error) => Err(error),
                None => Ok((total, refs_of(body, count))),
            },
        },
    }
}

/// What keeps a manifest from being committed, if anything.
pub open spec fn manifest_problem(index: Index, c: Seq<u8>, id: ObjectId) -> Option<Error> {
    match manifest_of(index, c, id) {
        Err(error) => Some(error),
        Ok((total, chunks)) => if total_len(chunks) != total {
            Some(Error::Corruption("manifest total mismatch"))
        } else {
            None
        },
    }
}

/// The bytes of the chunks one after the other, or the first problem with one.
pub open spec fn joined(index: Index, c: Seq<u8>, chunks: Seq<ChunkRef>) -> Result<Seq<u8>, Error>
    decreases chunks.len(),
{
    if chunks.len() == 0 {
        Ok(Seq::empty())
    } else {
        match joined(index, c, chunks.drop_last()) {
            Err(error) => Err(error),
            Ok(front) => match chunk_bytes(index, c, chunks.last().id) {
                Err(error) => Err(error),
                Ok(data) => if data.len() != chunks.last().len {
                    Err(Error::Corruption("chunk length mismatch"))
                } else {
                    Ok(front + data)
                },
            },
        }
    }
}

/// The bytes of an object, or why it cannot be read.
pub open spec fn object_bytes(index: Index, c: Seq<u8>, id: ObjectId) -> Result<Seq<u8>, Error> {
    match manifest_of(index, c, id) {
        Err(error) => Err(error),
        Ok((total, chunks)) => if total > usize::MAX {
            Err(Error::ResourceExhausted("object length does not fit usize"))
        } else if total > isize::MAX {
            Err(Error::ResourceExhausted("object allocation exceeds limit"))
        } else {
            match joined(index, c, chunks) {
                Err(error) => Err(error),
                Ok(bytes) => if bytes.len() != total {
                    Err(Error::Corruption("object length mismatch"))
                } else {
                    Ok(bytes)
                },
            }
        },
    }
}

/// Whether a superblock leads to a root's record, as far as the record's header and
/// digest tell. `Err` means that the record is of a version that is not known.
pub open spec fn candidate_valid(c: Seq<u8>, s: Super) -> Result<bool, Error> {
    if s.root_offset == 0 {
        Ok(s.generation == 0 && s.root_len == 0)
    } else if s.root_offset % 8 != 0 || s.root_offset < RECORDS_START || s.root_len != 72
        || s.root_offset + 72 > c.len() {
        Ok(false)
    } else {
        match header_of(c.subrange(s.root_offset as int, s.root_offset + 32)) {
            Err(Error::UnsupportedFormat) => Err(Error::UnsupportedFormat),
            Err(_) => Ok(false),
            Ok(header) => if !(header.kind is Root) || header.generation != s.generation
                || header.len != 40 {
                Ok(false)
            } else {
                let payload = c.subrange(s.root_offset + 32, s.root_offset + 72);
                Ok(
                    payload.take(32) == s.manifest@ && record_digest(
                        header.kind,
                        header.generation,
                        payload,
                    ) == s.root_digest@,
                )
            },
        }
    }
}

/// Where the committed records of a superblock end.
pub open spec fn committed_end(s: Super) -> int {
    if s.root_offset == 0 {
        RECORDS_START as int
    } else {
        s.root_offset + s.root_len
    }
}

/// Whether an error means that another superblock is to be tried.
pub open spec fn recoverable(error: Error) -> bool {
    error is Corruption || error is NotFound
}

/// What a superblock leads to: the index and the root, `None` where it is damaged, or
/// an error that ends the search.
pub open spec fn load(c: Seq<u8>, s: Super) -> Result<Option<(Index, Option<Root>)>, Error> {
    match scan_log(c, RECORDS_START as int, committed_end(s), Map::empty()) {
        Err(error) => if recoverable(error) {
            Ok(None)
        } else {
            Err(error)
        },
        Ok(index) => if s.root_offset == 0 {
            Ok(Some((index, None)))
        } else {
            match record_at(c, s.root_offset as int) {
                Err(error) => if recoverable(error) {
                    Ok(None)
                } else {
                    Err(error)
                },
                Ok((header, payload)) => if !(header.kind is Root) || header.generation
                    != s.generation || payload.len() != 40 || payload.take(32) != s.manifest@
                    || crate::bytes::le_value(payload.subrange(32, 40)) != s.generation
                    || record_digest(header.kind, header.generation, payload) != s.root_digest@ {
                    Ok(None)
                } else {
                    match manifest_problem(index, c, s.manifest) {
                        Some(error) => if recoverable(error) || error is WrongObjectKind {
                            Ok(None)
                        } else {
                            Err(error)
                        },
                        None => Ok(
                            Some(
                                (
                                    index,
                                    Some(
                                        Root { generation: s.generation, manifest: s.manifest },
                                    ),
                                ),
                            ),
                        ),
                    }
                },
            }
        },
    }
}

/// Whether two superblocks of one generation lead to the same root.
pub open spec fn same_root(a: Super, b: Super) -> bool {
    a.root_offset == b.root_offset && a.root_len == b.root_len && a.manifest == b.manifest
        && a.root_digest == b.root_digest
}

/// The superblock of a slot as it was read: a slot that could not be read counts as
/// empty.
pub open spec fn slot_super(read: Result<Seq<u8>, DeviceError>) -> Result<Super, Error> {
    match read {
        Ok(bytes) => super_of(bytes),
        Err(_) => Err(Error::Unformatted),
    }
}

/// The view of a store that was opened on a superblock.
pub open spec fn opened(
    c: Seq<u8>,
    s: Super,
    active: u8,
    index: Index,
    root: Option<Root>,
) -> Result<StoreView, Error> {
    match tail_of(c, committed_end(s)) {
        Err(error) => Err(error),
        Ok(end) => Ok(
            StoreView {
                index,
                root,
                append_offset: end as u64,
                active,
                requires_recovery: false,
            },
        ),
    }
}

/// Opening on the better of the valid superblocks: the first that is intact.
pub open spec fn open_best(
    c: Seq<u8>,
    first: (Super, u8),
    second: Option<(Super, u8)>,
) -> Result<StoreView, Error> {
    match load(c, first.0) {
        Err(error) => Err(error),
        Ok(Some((index, root))) => opened(c, first.0, first.1, index, root),
        Ok(None) => match second {
            None => Err(Error::Corruption("no complete generation")),
            Some(second) => match load(c, second.0) {
                Err(error) => Err(error),
                Ok(Some((index, root))) => opened(c, second.0, second.1, index, root),
                Ok(None) => Err(Error::Corruption("no complete generation")),
            },
        },
    }
}

/// What opening a device comes to, given what was read of its two slots.
pub open spec fn open_outcome(
    c: Seq<u8>,
    a: Result<Seq<u8>, DeviceError>,
    b: Result<Seq<u8>, DeviceError>,
) -> Result<StoreView, Error> {
    if a is Err && b is Err {
        Err(Error::Device(a->Err_0))
    } else if b is Err && a == Ok::<Seq<u8>, DeviceError>(zeros(128)) {
        Err(Error::Device(b->Err_0))
    } else {
        let da = slot_super(a);
        let db = slot_super(b);
        if da == Err::<Super, Error>(Error::UnsupportedFormat) || db == Err::<Super, Error>(
            Error::UnsupportedFormat,
        ) {
            Err(Error::UnsupportedFormat)
        } else {
            let va = match da {
                Ok(s) => candidate_valid(c, s),
                Err(_) => Ok(false),
            };
            let vb = match db {
                Ok(s) => candidate_valid(c, s),
                Err(_) => Ok(false),
            };
            match (va, vb) {
                (Err(error), _) => Err(error),
                (_, Err(error)) => Err(error),
                (Ok(true), Ok(true)) => {
                    let sa = da->Ok_0;
                    let sb = db->Ok_0;
                    if sa.generation == sb.generation && !same_root(sa, sb) {
                        Err(Error::Corruption("conflicting superblocks"))
                    } else if sb.generation > sa.generation {
                        open_best(c, (sb, 1u8), Some((sa, 0u8)))
                    } else {
                        open_best(c, (sa, 0u8), Some((sb, 1u8)))
                    }
                },
                (Ok(true), Ok(false)) => open_best(c, (da->Ok_0, 0u8), None),
                (Ok(false), Ok(true)) => open_best(c, (db->Ok_0, 1u8), None),
                (Ok(false), Ok(false)) => if da == Err::<Super, Error>(Error::Unformatted) && db
                    == Err::<Super, Error>(Error::Unformatted) {
                    Err(Error::Unformatted)
                } else {
                    Err(Error::Corruption("no valid superblock"))
                },
            }
        }
    }
}

/// Why a record cannot be appended, if it cannot.
pub open spec fn append_problem(at: u64, capacity: nat, payload_len: nat) -> Option<Error> {
    if payload_len > MAX_PAYLOAD {
        Some(Error::InvalidInput("payload too large"))
    } else if at + 32 + payload_len > u64::MAX {
        Some(Error::InvalidInput("offset overflow"))
    } else if at + 32 + payload_len + 7 > u64::MAX {
        Some(Error::Corruption("offset overflow"))
    } else if aligned(at + 32 + payload_len) > capacity {
        Some(Error::Capacity)
    } else {
        None
    }
}

/// The header of a record that is appended.
pub open spec fn new_header(kind: Kind, payload: Seq<u8>, generation: u64) -> Header {
    Header {
        kind,
        len: payload.len() as u32,
        generation,
        checksum: record_checksum(kind, generation, payload) as u64,
    }
}

/// The bytes of the device with a record written.
pub open spec fn with_record(
    c: Seq<u8>,
    at: int,
    kind: Kind,
    payload: Seq<u8>,
    generation: u64,
) -> Seq<u8> {
    splice(
        splice(c, at, header_bytes(new_header(kind, payload, generation))),
        at + 32,
        payload,
    )
}

/// What the store knows after a record was appended.
pub open spec fn after_append(
    v: StoreView,
    kind: Kind,
    payload: Seq<u8>,
    generation: u64,
) -> StoreView {
    StoreView {
        append_offset: aligned(v.append_offset + 32 + payload.len()) as u64,
        index: indexed(
            v.index,
            v.append_offset,
            new_header(kind, payload, generation),
            payload,
        ),
        ..v
    }
}

/// What the store knows after a write went wrong: nothing more is written until it is
/// opened anew.
pub open spec fn poisoned(v: StoreView) -> StoreView {
    StoreView { requires_recovery: true, ..v }
}

} // verus!
