//! The bytes of records, superblocks and manifests.
use vstd::prelude::*;
use vstd::string::*;

use crate::bytes::{
    id_at, le_bytes, le_value, lemma_id_view, lemma_le_bytes_len, lemma_le_roundtrip, lemma_le_value_bound,
    lemma_pow256_values, push_all, push_le, read_le, same_bytes, zeros,
};
use crate::device::block::DeviceError;
use crate::hashing::{blake3_digest, digest_bytes, hasher_finish, hasher_new, hasher_update};

verus! {

/// The identifier of an object: a digest of its kind and bytes.
pub type ObjectId = [u8; 32];

pub type Generation = u64;

pub const DEFAULT_CHUNK_SIZE: usize = 1_048_576;

/// The distance of the two superblocks.
pub const SLOT_SIZE: u64 = 4096;

/// Where the records start.
pub const RECORDS_START: u64 = 8192;

/// The length of a record's header.
pub const HEADER_LEN: usize = 32;

/// The length of a superblock.
pub const SUPER_LEN: usize = 128;

/// The most bytes that a record's payload can have.
pub const MAX_PAYLOAD: u64 = 67_108_864;

pub const RECORD_MAGIC: u32 = 0x4341_4952;

pub const SUPER_MAGIC: u32 = 0x4341_5350;

pub const FORMAT_VERSION: u16 = 2;

pub const MANIFEST_HEADER_SIZE: usize = 16;

pub const MANIFEST_CHUNK_REF_SIZE: usize = 36;

/// The most chunks that a manifest can list.
pub const MAX_MANIFEST_CHUNKS: usize = 1_864_133;

/// The length of a root's record, header included.
pub const ROOT_RECORD_LEN: u32 = 72;

#[derive(Clone, Copy, Debug, PartialEq, Eq)]
pub struct ChunkRef {
    pub id: ObjectId,
    pub len: u32,
}

#[derive(Debug, PartialEq, Eq)]
pub struct Object {
    pub id: ObjectId,
    pub len: u64,
    pub chunks: Vec<ChunkRef>,
}

#[derive(Clone, Copy, Debug, PartialEq, Eq)]
pub struct Root {
    pub generation: Generation,
    pub manifest: ObjectId,
}

/// Names objects by their bytes.
pub trait ObjectHasher {
    fn hash(&self, data: &[u8]) -> (id: ObjectId);
}

#[derive(Clone, Copy, Debug)]
pub struct Blake3Hasher;

impl Default for Blake3Hasher {
    fn default() -> (hasher: Self)
        ensures
            hasher == Blake3Hasher,
    {
        Blake3Hasher
    }
}

impl ObjectHasher for Blake3Hasher {
    fn hash(&self, data: &[u8]) -> (id: ObjectId)
        ensures
            id@ == chunk_digest(data@),
    {
        chunk_id(data)
    }
}

#[derive(Clone, Copy, Debug, PartialEq, Eq)]
pub enum Error {
    Device(DeviceError),
    Corruption(&'static str),
    NotFound(ObjectId),
    WrongObjectKind(&'static str),
    InvalidInput(&'static str),
    Capacity,
    ResourceExhausted(&'static str),
    Unformatted,
    UnsupportedFormat,
    RequiresRecovery,
}

impl vstd::std_specs::convert::FromSpecImpl<DeviceError> for Error {
    open spec fn obeys_from_spec() -> bool {
        true
    }

    open spec fn from_spec(error: DeviceError) -> Self {
        Error::Device(error)
    }
}

impl From<DeviceError> for Error {
    fn from(error: DeviceError) -> (wrapped: Self) {
        Error::Device(error)
    }
}

/// What a record holds.
#[derive(Clone, Copy, Debug, PartialEq, Eq, Structural)]
pub enum Kind {
    Chunk,
    Manifest,
    Root,
}

impl Kind {
    pub open spec fn number(self) -> u16 {
        match self {
            Kind::Chunk => 1,
            Kind::Manifest => 2,
            Kind::Root => 4,
        }
    }

    pub fn code(self) -> (code: u16)
        ensures
            code == self.number(),
    {
        match self {
            Kind::Chunk => 1,
            Kind::Manifest => 2,
            Kind::Root => 4,
        }
    }
}

/// The kind with the given number.
pub open spec fn kind_numbered(code: nat) -> Option<Kind> {
    if code == 1 {
        Some(Kind::Chunk)
    } else if code == 2 {
        Some(Kind::Manifest)
    } else if code == 4 {
        Some(Kind::Root)
    } else {
        None
    }
}

#[derive(Clone, Copy, Debug, PartialEq, Eq, Structural)]
pub struct Header {
    pub kind: Kind,
    pub len: u32,
    pub generation: u64,
    pub checksum: u64,
}

/// A header up to its checksum.
pub open spec fn header_front(kind: Kind, len: nat, generation: u64) -> Seq<u8> {
    le_bytes(RECORD_MAGIC as nat, 4) + le_bytes(FORMAT_VERSION as nat, 2) + le_bytes(
        kind.number() as nat,
        2,
    ) + le_bytes(len, 4) + le_bytes(generation as nat, 8)
}

/// The header of which the checksum is taken: with zeros in place of the checksum.
pub open spec fn header_base(kind: Kind, len: nat, generation: u64) -> Seq<u8> {
    header_front(kind, len, generation) + zeros(12)
}

pub open spec fn header_bytes(header: Header) -> Seq<u8> {
    header_front(header.kind, header.len as nat, header.generation) + le_bytes(
        header.checksum as nat,
        8,
    ) + zeros(4)
}

/// The digest of a record.
pub open spec fn record_digest(kind: Kind, generation: u64, payload: Seq<u8>) -> Seq<u8> {
    blake3_digest(header_base(kind, payload.len(), generation) + payload)@
}

/// The checksum of a record: the front of its digest.
pub open spec fn record_checksum(kind: Kind, generation: u64, payload: Seq<u8>) -> nat {
    le_value(record_digest(kind, generation, payload).take(8))
}

/// The checksum fills the field that it is stored in.
pub proof fn lemma_checksum_fits(kind: Kind, generation: u64, payload: Seq<u8>)
    ensures
        record_checksum(kind, generation, payload) <= u64::MAX,
{
    lemma_pow256_values();
    lemma_le_value_bound(record_digest(kind, generation, payload).take(8));
}

/// The header that bytes stand for, or what is wrong with them.
pub open spec fn header_of(bytes: Seq<u8>) -> Result<Header, Error> {
    let kind = kind_numbered(le_value(bytes.subrange(6, 8)));
    let len = le_value(bytes.subrange(8, 12));
    if le_value(bytes.subrange(0, 4)) != RECORD_MAGIC {
        Err(Error::Corruption("bad record magic"))
    } else if le_value(bytes.subrange(4, 6)) != FORMAT_VERSION {
        Err(Error::UnsupportedFormat)
    } else if bytes.subrange(28, 32) != zeros(4) {
        Err(Error::Corruption("header reserved"))
    } else if len > MAX_PAYLOAD {
        Err(Error::Corruption("record too large"))
    } else {
        match kind {
            None => Err(Error::Corruption("unknown record kind")),
            Some(kind) => Ok(
                Header {
                    kind,
                    len: len as u32,
                    generation: le_value(bytes.subrange(12, 20)) as u64,
                    checksum: le_value(bytes.subrange(20, 28)) as u64,
                },
            ),
        }
    }
}

proof fn lemma_front_len(kind: Kind, len: nat, generation: u64)
    ensures
        header_front(kind, len, generation).len() == 20,
{
    lemma_le_bytes_len(RECORD_MAGIC as nat, 4);
    lemma_le_bytes_len(FORMAT_VERSION as nat, 2);
    lemma_le_bytes_len(kind.number() as nat, 2);
    lemma_le_bytes_len(len, 4);
    lemma_le_bytes_len(generation as nat, 8);
}

pub proof fn lemma_header_len(header: Header)
    ensures
        header_bytes(header).len() == 32,
{
    lemma_front_len(header.kind, header.len as nat, header.generation);
    lemma_le_bytes_len(header.checksum as nat, 8);
}

/// A header that was written reads back.
pub proof fn law_header_reads_back(header: Header)
    requires
        header.len <= MAX_PAYLOAD,
    ensures
        header_of(header_bytes(header)) == Ok::<Header, Error>(header),
{
    let b = header_bytes(header);
    let a1 = le_bytes(RECORD_MAGIC as nat, 4);
    let a2 = le_bytes(FORMAT_VERSION as nat, 2);
    let a3 = le_bytes(header.kind.number() as nat, 2);
    let a4 = le_bytes(header.len as nat, 4);
    let a5 = le_bytes(header.generation as nat, 8);
    let a6 = le_bytes(header.checksum as nat, 8);
    lemma_pow256_values();
    lemma_le_roundtrip(RECORD_MAGIC as nat, 4);
    lemma_le_roundtrip(FORMAT_VERSION as nat, 2);
    lemma_le_roundtrip(header.kind.number() as nat, 2);
    lemma_le_roundtrip(header.len as nat, 4);
    lemma_le_roundtrip(header.generation as nat, 8);
    lemma_le_roundtrip(header.checksum as nat, 8);
    assert(b.subrange(0, 4) =~= a1);
    assert(b.subrange(4, 6) =~= a2);
    assert(b.subrange(6, 8) =~= a3);
    assert(b.subrange(8, 12) =~= a4);
    assert(b.subrange(12, 20) =~= a5);
    assert(b.subrange(20, 28) =~= a6);
    assert(b.subrange(28, 32) =~= zeros(4));
}

fn push_zeros(out: &mut Vec<u8>, n: usize)
    ensures
        final(out)@ == old(out)@ + zeros(n as nat),
{
    let ghost before = out@;
    let mut i: usize = 0;
    proof {
        assert(out@ =~= before + zeros(0));
    }
    while i < n
        invariant
            i <= n,
            out@ == before + zeros(i as nat),
        decreases n - i,
    {
        out.push(0);
        i = i + 1;
        proof {
            assert(out@ =~= before + zeros(i as nat));
        }
    }
}

/// Whether the bytes are all zero.
pub fn all_zero(bytes: &[u8]) -> (zero: bool)
    ensures
        zero == (bytes@ == zeros(bytes@.len())),
{
    let mut i: usize = 0;
    while i < bytes.len()
        invariant
            i <= bytes@.len(),
            forall|j: int| 0 <= j < i ==> bytes@[j] == 0,
        decreases bytes@.len() - i,
    {
        if bytes[i] != 0 {
            proof {
                assert(zeros(bytes@.len())[i as int] == 0);
            }
            return false;
        }
        i = i + 1;
    }
    proof {
        assert(bytes@ =~= zeros(bytes@.len()));
    }
    true
}

impl Header {
    fn front(&self) -> (out: Vec<u8>)
        ensures
            out@ == header_front(self.kind, self.len as nat, self.generation),
    {
        let mut out: Vec<u8> = Vec::new();
        push_le(&mut out, RECORD_MAGIC as u64, 4);
        push_le(&mut out, FORMAT_VERSION as u64, 2);
        push_le(&mut out, self.kind.code() as u64, 2);
        push_le(&mut out, self.len as u64, 4);
        push_le(&mut out, self.generation, 8);
        proof {
            assert(out@ =~= header_front(self.kind, self.len as nat, self.generation));
        }
        out
    }

    pub fn encode(&self) -> (out: Vec<u8>)
        ensures
            out@ == header_bytes(*self),
            out@.len() == 32,
    {
        let mut out = self.front();
        push_le(&mut out, self.checksum, 8);
        push_zeros(&mut out, 4);
        proof {
            lemma_header_len(*self);
        }
        out
    }

    pub fn decode(bytes: &[u8]) -> (r: Result<Self, Error>)
        requires
            bytes@.len() == 32,
        ensures
            r == header_of(bytes@),
    {
        proof {
            lemma_pow256_values();
        }
        let magic: u64 = read_le(bytes, 0, 4);
        if magic != RECORD_MAGIC as u64 {
            return Err(Error::Corruption("bad record magic"));
        }
        let version: u64 = read_le(bytes, 4, 2);
        if version != FORMAT_VERSION as u64 {
            return Err(Error::UnsupportedFormat);
        }
        let reserved = vstd::slice::slice_subrange(bytes, 28, 32);
        if !all_zero(reserved) {
            return Err(Error::Corruption("header reserved"));
        }
        let len: u64 = read_le(bytes, 8, 4);
        if len > MAX_PAYLOAD {
            return Err(Error::Corruption("record too large"));
        }
        let code: u64 = read_le(bytes, 6, 2);
        let kind = if code == 1 {
            Kind::Chunk
        } else if code == 2 {
            Kind::Manifest
        } else if code == 4 {
            Kind::Root
        } else {
            return Err(Error::Corruption("unknown record kind"));
        };
        Ok(
            Header {
                kind,
                len: len as u32,
                generation: read_le(bytes, 12, 8),
                checksum: read_le(bytes, 20, 8),
            },
        )
    }

    /// The digest of the record with this header and payload.
    pub fn digest(&self, payload: &[u8]) -> (id: ObjectId)
        requires
            payload@.len() == self.len,
        ensures
            id@ == record_digest(self.kind, self.generation, payload@),
    {
        let mut base = self.front();
        push_zeros(&mut base, 12);
        let mut hasher = hasher_new();
        hasher_update(&mut hasher, base.as_slice());
        hasher_update(&mut hasher, payload);
        proof {
            assert(Seq::<u8>::empty() + base@ + payload@ =~= header_base(
                self.kind,
                payload@.len(),
                self.generation,
            ) + payload@);
        }
        hasher_finish(&hasher)
    }
}

/// The front of an identifier as a number.
pub fn front_value(id: &ObjectId) -> (value: u64)
    ensures
        value as nat == le_value(id@.take(8)),
{
    proof {
        assert(id@.subrange(0, 8) =~= id@.take(8));
    }
    read_le(id.as_slice(), 0, 8)
}

/// The identifier made of the given bytes.
pub open spec fn object_id(bytes: Seq<u8>) -> ObjectId {
    choose|id: ObjectId| id@ == bytes
}

pub proof fn lemma_object_id(id: ObjectId)
    ensures
        object_id(id@) == id,
{
    lemma_id_view(object_id(id@), id);
}

/// Digests are identifiers.
pub proof fn lemma_digest_id(bytes: Seq<u8>)
    ensures
        object_id(blake3_digest(bytes)@) == blake3_digest(bytes),
{
    lemma_object_id(blake3_digest(bytes));
}

pub open spec fn chunk_digest(data: Seq<u8>) -> Seq<u8> {
    blake3_digest("cairn/chunk/v1\0".spec_bytes() + data)@
}

pub open spec fn manifest_digest(body: Seq<u8>) -> Seq<u8> {
    blake3_digest("cairn/manifest/v1\0".spec_bytes() + body)@
}

/// The identifier of a chunk with the given bytes.
pub fn chunk_id(data: &[u8]) -> (id: ObjectId)
    ensures
        id@ == chunk_digest(data@),
        id == object_id(chunk_digest(data@)),
{
    let mut hasher = hasher_new();
    hasher_update(&mut hasher, "cairn/chunk/v1\0".as_bytes());
    hasher_update(&mut hasher, data);
    proof {
        assert(Seq::<u8>::empty() + "cairn/chunk/v1\0".spec_bytes() + data@
            =~= "cairn/chunk/v1\0".spec_bytes() + data@);
    }
    let id = hasher_finish(&hasher);
    proof {
        lemma_object_id(id);
    }
    id
}

/// The identifier of a manifest with the given body.
pub fn manifest_id(body: &[u8]) -> (id: ObjectId)
    ensures
        id@ == manifest_digest(body@),
        id == object_id(manifest_digest(body@)),
{
    let mut hasher = hasher_new();
    hasher_update(&mut hasher, "cairn/manifest/v1\0".as_bytes());
    hasher_update(&mut hasher, body);
    proof {
        assert(Seq::<u8>::empty() + "cairn/manifest/v1\0".spec_bytes() + body@
            =~= "cairn/manifest/v1\0".spec_bytes() + body@);
    }
    let id = hasher_finish(&hasher);
    proof {
        lemma_object_id(id);
    }
    id
}

/// The chunks' references one after the other.
pub open spec fn refs_bytes(chunks: Seq<ChunkRef>) -> Seq<u8>
    decreases chunks.len(),
{
    if chunks.len() == 0 {
        Seq::empty()
    } else {
        refs_bytes(chunks.drop_last()) + chunks.last().id@ + le_bytes(chunks.last().len as nat, 4)
    }
}

/// How many bytes the chunks have together.
pub open spec fn total_len(chunks: Seq<ChunkRef>) -> nat
    decreases chunks.len(),
{
    if chunks.len() == 0 {
        0
    } else {
        total_len(chunks.drop_last()) + chunks.last().len as nat
    }
}

/// The body of a manifest.
pub open spec fn manifest_bytes(chunks: Seq<ChunkRef>) -> Seq<u8> {
    le_bytes(1, 2) + le_bytes(0, 2) + le_bytes(chunks.len(), 4) + le_bytes(total_len(chunks), 8)
        + refs_bytes(chunks)
}

pub proof fn lemma_refs_len(chunks: Seq<ChunkRef>)
    ensures
        refs_bytes(chunks).len() == 36 * chunks.len(),
    decreases chunks.len(),
{
    if chunks.len() > 0 {
        lemma_refs_len(chunks.drop_last());
        lemma_le_bytes_len(chunks.last().len as nat, 4);
    }
}

pub proof fn lemma_manifest_len(chunks: Seq<ChunkRef>)
    ensures
        manifest_bytes(chunks).len() == 16 + 36 * chunks.len(),
{
    lemma_le_bytes_len(1, 2);
    lemma_le_bytes_len(0, 2);
    lemma_le_bytes_len(chunks.len(), 4);
    lemma_le_bytes_len(total_len(chunks), 8);
    lemma_refs_len(chunks);
}

pub proof fn lemma_total_bound(chunks: Seq<ChunkRef>)
    ensures
        total_len(chunks) <= chunks.len() * 0xffff_ffff,
    decreases chunks.len(),
{
    if chunks.len() > 0 {
        lemma_total_bound(chunks.drop_last());
    }
}

/// The reference at the `i`th place of a manifest's body.
pub open spec fn ref_at(body: Seq<u8>, i: int) -> ChunkRef {
    let at = 16 + 36 * i;
    ChunkRef {
        id: object_id(body.subrange(at, at + 32)),
        len: le_value(body.subrange(at + 32, at + 36)) as u32,
    }
}

/// The layout of a manifest's body: how many chunks it lists and how long the object
/// is, or what is wrong with it.
pub open spec fn layout_of(body: Seq<u8>) -> Result<(nat, u64), Error> {
    if body.len() < 16 {
        Err(Error::Corruption("manifest format"))
    } else {
        let count = le_value(body.subrange(4, 8));
        if body.len() != 16 + 36 * count || body.subrange(0, 2) != le_bytes(1, 2)
            || body.subrange(2, 4) != zeros(2) {
            Err(Error::Corruption("manifest format"))
        } else {
            Ok((count, le_value(body.subrange(8, 16)) as u64))
        }
    }
}

/// The body of a manifest of the given chunks.
pub fn manifest_body(chunks: &[ChunkRef], total: u64) -> (body: Vec<u8>)
    requires
        total == total_len(chunks@),
    ensures
        body@ == manifest_bytes(chunks@),
        body@.len() == 16 + 36 * chunks@.len(),
{
    let mut body: Vec<u8> = Vec::new();
    push_le(&mut body, 1, 2);
    push_le(&mut body, 0, 2);
    push_le(&mut body, chunks.len() as u64, 4);
    push_le(&mut body, total, 8);
    let ghost head = body@;
    let mut i: usize = 0;
    proof {
        assert(chunks@.take(0) =~= Seq::empty());
        assert(body@ =~= head + refs_bytes(chunks@.take(0)));
    }
    while i < chunks.len()
        invariant
            i <= chunks@.len(),
            body@ == head + refs_bytes(chunks@.take(i as int)),
        decreases chunks@.len() - i,
    {
        push_all(&mut body, chunks[i].id.as_slice());
        push_le(&mut body, chunks[i].len as u64, 4);
        i = i + 1;
        proof {
            assert(chunks@.take(i as int).drop_last() =~= chunks@.take(i - 1));
            assert(body@ =~= head + refs_bytes(chunks@.take(i as int)));
        }
    }
    proof {
        assert(chunks@.take(i as int) =~= chunks@);
        assert(body@ =~= manifest_bytes(chunks@));
        lemma_manifest_len(chunks@);
    }
    body
}

/// The layout of a manifest's body.
pub fn manifest_layout(body: &[u8]) -> (r: Result<(usize, u64), Error>)
    ensures
        match layout_of(body@) {
            Ok((count, total)) => r is Ok && r->Ok_0.0 == count && r->Ok_0.1 == total,
            Err(error) => r == Err::<(usize, u64), Error>(error),
        },
{
    if body.len() < MANIFEST_HEADER_SIZE {
        return Err(Error::Corruption("manifest format"));
    }
    proof {
        lemma_pow256_values();
        reveal_with_fuel(le_bytes, 3);
    }
    let count: u64 = read_le(body, 4, 4);
    let need: u64 = 16 + count * 36;
    if body.len() as u64 != need {
        return Err(Error::Corruption("manifest format"));
    }
    if body[0] != 1 || body[1] != 0 {
        proof {
            assert(le_bytes(1, 2)[0] == 1 && le_bytes(1, 2)[1] == 0);
            assert(body@.subrange(0, 2)[0] == body@[0] && body@.subrange(0, 2)[1] == body@[1]);
        }
        return Err(Error::Corruption("manifest format"));
    }
    if body[2] != 0 || body[3] != 0 {
        proof {
            assert(zeros(2)[0] == 0 && zeros(2)[1] == 0);
            assert(body@.subrange(2, 4)[0] == body@[2] && body@.subrange(2, 4)[1] == body@[3]);
        }
        return Err(Error::Corruption("manifest format"));
    }
    proof {
        assert(body@.subrange(0, 2) =~= le_bytes(1, 2));
        assert(body@.subrange(2, 4) =~= zeros(2));
    }
    Ok((count as usize, read_le(body, 8, 8)))
}

/// The reference at the `i`th place.
pub fn manifest_ref(body: &[u8], i: usize) -> (chunk: ChunkRef)
    requires
        16 + 36 * (i + 1) <= body@.len(),
    ensures
        chunk == ref_at(body@, i as int),
{
    let total: usize = body.len();
    let at: usize = 16 + 36 * i;
    let id = id_at(body, at);
    proof {
        lemma_object_id(id);
        lemma_pow256_values();
    }
    ChunkRef { id, len: read_le(body, at + 32, 4) as u32 }
}

/// The references of a manifest's body are those that it was made of.
pub proof fn lemma_refs_read_back(chunks: Seq<ChunkRef>, i: int)
    requires
        0 <= i < chunks.len(),
    ensures
        refs_bytes(chunks).subrange(36 * i, 36 * i + 32) == chunks[i].id@,
        refs_bytes(chunks).subrange(36 * i + 32, 36 * i + 36) == le_bytes(chunks[i].len as nat, 4),
    decreases chunks.len(),
{
    let rest = chunks.drop_last();
    lemma_refs_len(chunks);
    lemma_refs_len(rest);
    lemma_le_bytes_len(chunks.last().len as nat, 4);
    let all = refs_bytes(chunks);
    if i < rest.len() {
        lemma_refs_read_back(rest, i);
        assert(all.subrange(36 * i, 36 * i + 32) =~= refs_bytes(rest).subrange(
            36 * i,
            36 * i + 32,
        ));
        assert(all.subrange(36 * i + 32, 36 * i + 36) =~= refs_bytes(rest).subrange(
            36 * i + 32,
            36 * i + 36,
        ));
    } else {
        assert(all.subrange(36 * i, 36 * i + 32) =~= chunks[i].id@);
        assert(all.subrange(36 * i + 32, 36 * i + 36) =~= le_bytes(chunks[i].len as nat, 4));
    }
}

/// A manifest that was written reads back.
pub proof fn law_manifest_reads_back(chunks: Seq<ChunkRef>)
    requires
        chunks.len() <= MAX_MANIFEST_CHUNKS,
    ensures
        layout_of(manifest_bytes(chunks)) == Ok::<(nat, u64), Error>(
            (chunks.len(), total_len(chunks) as u64),
        ),
        total_len(chunks) <= u64::MAX,
        forall|i: int|
            0 <= i < chunks.len() ==> #[trigger] ref_at(manifest_bytes(chunks), i) == chunks[i],
{
    let body = manifest_bytes(chunks);
    lemma_manifest_len(chunks);
    lemma_refs_len(chunks);
    lemma_total_bound(chunks);
    lemma_pow256_values();
    lemma_le_roundtrip(chunks.len(), 4);
    lemma_le_roundtrip(total_len(chunks), 8);
    lemma_le_bytes_len(1, 2);
    lemma_le_bytes_len(0, 2);
    assert(body.subrange(0, 2) =~= le_bytes(1, 2));
    assert(le_bytes(0, 2) =~= zeros(2)) by {
        reveal_with_fuel(le_bytes, 3);
    }
    assert(body.subrange(2, 4) =~= zeros(2));
    assert(body.subrange(4, 8) =~= le_bytes(chunks.len(), 4));
    assert(body.subrange(8, 16) =~= le_bytes(total_len(chunks), 8));
    assert forall|i: int| 0 <= i < chunks.len() implies #[trigger] ref_at(body, i) == chunks[i] by {
        lemma_refs_read_back(chunks, i);
        let at = 16 + 36 * i;
        assert(body.subrange(at, at + 32) =~= refs_bytes(chunks).subrange(36 * i, 36 * i + 32));
        assert(body.subrange(at + 32, at + 36) =~= refs_bytes(chunks).subrange(
            36 * i + 32,
            36 * i + 36,
        ));
        lemma_object_id(chunks[i].id);
        lemma_le_roundtrip(chunks[i].len as nat, 4);
    }
}

/// A superblock: which root is committed, and where its record is.
#[derive(Clone, Copy, Debug, PartialEq, Eq)]
pub struct Super {
    pub generation: u64,
    pub root_offset: u64,
    pub root_len: u32,
    pub manifest: ObjectId,
    pub root_digest: ObjectId,
}

/// A superblock up to its checksum.
pub open spec fn super_body(s: Super) -> Seq<u8> {
    le_bytes(SUPER_MAGIC as nat, 4) + le_bytes(FORMAT_VERSION as nat, 2) + zeros(2) + le_bytes(
        s.generation as nat,
        8,
    ) + le_bytes(s.root_offset as nat, 8) + le_bytes(s.root_len as nat, 4) + s.manifest@
        + s.root_digest@ + zeros(4)
}

pub open spec fn super_bytes(s: Super) -> Seq<u8> {
    super_body(s) + blake3_digest(super_body(s))@
}

/// The superblock that bytes stand for, or what is wrong with them.
pub open spec fn super_of(bytes: Seq<u8>) -> Result<Super, Error> {
    if bytes == zeros(128) {
        Err(Error::Unformatted)
    } else if le_value(bytes.subrange(0, 4)) != SUPER_MAGIC {
        Err(Error::Corruption("super magic"))
    } else if bytes.subrange(6, 8) != zeros(2) || bytes.subrange(92, 96) != zeros(4)
        || blake3_digest(bytes.subrange(0, 96))@ != bytes.subrange(96, 128) {
        Err(Error::Corruption("super checksum"))
    } else if le_value(bytes.subrange(4, 6)) != FORMAT_VERSION {
        Err(Error::UnsupportedFormat)
    } else {
        Ok(
            Super {
                generation: le_value(bytes.subrange(8, 16)) as u64,
                root_offset: le_value(bytes.subrange(16, 24)) as u64,
                root_len: le_value(bytes.subrange(24, 28)) as u32,
                manifest: object_id(bytes.subrange(28, 60)),
                root_digest: object_id(bytes.subrange(60, 92)),
            },
        )
    }
}

pub proof fn lemma_super_body_len(s: Super)
    ensures
        super_body(s).len() == 96,
{
    lemma_le_bytes_len(SUPER_MAGIC as nat, 4);
    lemma_le_bytes_len(FORMAT_VERSION as nat, 2);
    lemma_le_bytes_len(s.generation as nat, 8);
    lemma_le_bytes_len(s.root_offset as nat, 8);
    lemma_le_bytes_len(s.root_len as nat, 4);
}

/// A superblock that was written reads back.
pub proof fn law_super_reads_back(s: Super)
    ensures
        super_of(super_bytes(s)) == Ok::<Super, Error>(s),
{
    let b = super_bytes(s);
    let body = super_body(s);
    lemma_super_body_len(s);
    lemma_pow256_values();
    lemma_le_roundtrip(SUPER_MAGIC as nat, 4);
    lemma_le_roundtrip(FORMAT_VERSION as nat, 2);
    lemma_le_roundtrip(s.generation as nat, 8);
    lemma_le_roundtrip(s.root_offset as nat, 8);
    lemma_le_roundtrip(s.root_len as nat, 4);
    assert(b.subrange(0, 4) =~= le_bytes(SUPER_MAGIC as nat, 4));
    assert(b.subrange(4, 6) =~= le_bytes(FORMAT_VERSION as nat, 2));
    assert(b.subrange(6, 8) =~= zeros(2));
    assert(b.subrange(8, 16) =~= le_bytes(s.generation as nat, 8));
    assert(b.subrange(16, 24) =~= le_bytes(s.root_offset as nat, 8));
    assert(b.subrange(24, 28) =~= le_bytes(s.root_len as nat, 4));
    assert(b.subrange(28, 60) =~= s.manifest@);
    assert(b.subrange(60, 92) =~= s.root_digest@);
    assert(b.subrange(92, 96) =~= zeros(4));
    assert(b.subrange(0, 96) =~= body);
    assert(b.subrange(96, 128) =~= blake3_digest(body)@);
    lemma_object_id(s.manifest);
    lemma_object_id(s.root_digest);
    if b == zeros(128) {
        assert(b.subrange(0, 4) =~= zeros(4));
        assert(le_value(zeros(4)) == 0) by {
            reveal_with_fuel(le_value, 5);
        }
    }
}

impl Super {
    /// The superblock of a store without a root.
    pub fn empty() -> (s: Self)
        ensures
            s.generation == 0,
            s.root_offset == 0,
            s.root_len == 0,
            s.manifest@ == zeros(32),
            s.root_digest@ == zeros(32),
    {
        let zero: [u8; 32] = [0u8; 32];
        proof {
            assert(zero@ =~= zeros(32));
        }
        Super { generation: 0, root_offset: 0, root_len: 0, manifest: zero, root_digest: zero }
    }

    pub fn encode(&self) -> (out: Vec<u8>)
        ensures
            out@ == super_bytes(*self),
            out@.len() == 128,
    {
        let mut out: Vec<u8> = Vec::new();
        push_le(&mut out, SUPER_MAGIC as u64, 4);
        push_le(&mut out, FORMAT_VERSION as u64, 2);
        push_zeros(&mut out, 2);
        push_le(&mut out, self.generation, 8);
        push_le(&mut out, self.root_offset, 8);
        push_le(&mut out, self.root_len as u64, 4);
        push_all(&mut out, self.manifest.as_slice());
        push_all(&mut out, self.root_digest.as_slice());
        push_zeros(&mut out, 4);
        proof {
            assert(out@ =~= super_body(*self));
            lemma_super_body_len(*self);
        }
        let checksum = digest_bytes(out.as_slice());
        push_all(&mut out, checksum.as_slice());
        out
    }

    pub fn decode(bytes: &[u8]) -> (r: Result<Self, Error>)
        requires
            bytes@.len() == 128,
        ensures
            r == super_of(bytes@),
    {
        proof {
            lemma_pow256_values();
        }
        if all_zero(bytes) {
            return Err(Error::Unformatted);
        }
        let magic: u64 = read_le(bytes, 0, 4);
        if magic != SUPER_MAGIC as u64 {
            return Err(Error::Corruption("super magic"));
        }
        if !all_zero(vstd::slice::slice_subrange(bytes, 6, 8)) || !all_zero(
            vstd::slice::slice_subrange(bytes, 92, 96),
        ) {
            return Err(Error::Corruption("super checksum"));
        }
        let checksum = digest_bytes(vstd::slice::slice_subrange(bytes, 0, 96));
        if !same_bytes(checksum.as_slice(), vstd::slice::slice_subrange(bytes, 96, 128)) {
            return Err(Error::Corruption("super checksum"));
        }
        let version: u64 = read_le(bytes, 4, 2);
        if version != FORMAT_VERSION as u64 {
            return Err(Error::UnsupportedFormat);
        }
        let manifest = id_at(bytes, 28);
        let root_digest = id_at(bytes, 60);
        proof {
            lemma_object_id(manifest);
            lemma_object_id(root_digest);
        }
        Ok(
            Super {
                generation: read_le(bytes, 8, 8),
                root_offset: read_le(bytes, 16, 8),
                root_len: read_le(bytes, 24, 4) as u32,
                manifest,
                root_digest,
            },
        )
    }
}

} // verus!
