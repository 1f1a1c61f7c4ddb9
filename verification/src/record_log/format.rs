//! The bytes of a record.
use vstd::prelude::*;

use crate::bytes::{
    le_bytes, le_value, lemma_le_bytes_len, lemma_le_roundtrip, lemma_le_value_bound, lemma_pow256_values, push_all,
    push_le, read_le, zero_bytes, zeros,
};
use crate::device::block::DeviceError;
use crate::engine::format::ObjectHasher;
use crate::hashing::{blake3_digest, digest_bytes, hasher_finish, hasher_new, hasher_update};

verus! {

pub type ObjectId = [u8; 32];

pub type Generation = u64;

#[derive(Clone, Copy, Debug, PartialEq, Eq)]
pub struct ChunkRef {
    pub id: ObjectId,
    pub len: u32,
}

#[derive(Debug, PartialEq, Eq)]
pub struct Object {
    pub id: ObjectId,
    pub len: u64,
    pub chunks: Vec<ChunkRef>,
}

#[derive(Clone, Copy, Debug, PartialEq, Eq)]
pub struct Root {
    pub generation: Generation,
    pub manifest: ObjectId,
}

/// Names objects by the digest of their bytes alone.
#[derive(Clone, Copy, Debug)]
pub struct Blake3Hasher;

impl Default for Blake3Hasher {
    fn default() -> (hasher: Self)
        ensures
            hasher == Blake3Hasher,
    {
        Blake3Hasher
    }
}

impl ObjectHasher for Blake3Hasher {
    fn hash(&self, data: &[u8]) -> (id: ObjectId)
        ensures
            id == blake3_digest(data@),
    {
        digest_bytes(data)
    }
}

#[derive(Clone, Copy, Debug, PartialEq, Eq)]
pub enum Error {
    Device(DeviceError),
    Corruption(&'static str),
    NotFound(ObjectId),
    InvalidInput(&'static str),
}

impl vstd::std_specs::convert::FromSpecImpl<DeviceError> for Error {
    open spec fn obeys_from_spec() -> bool {
        true
    }

    open spec fn from_spec(error: DeviceError) -> Self {
        Error::Device(error)
    }
}

impl From<DeviceError> for Error {
    fn from(error: DeviceError) -> (wrapped: Self) {
        Error::Device(error)
    }
}

pub const HEADER_SIZE: usize = 32;

pub const MAGIC: u32 = 0x4341_4952;

pub const VERSION: u16 = 1;

/// The most bytes that a record's payload can have.
pub const MAX_RECORD_PAYLOAD: u64 = 67_108_864;

#[derive(Clone, Copy, Debug, PartialEq, Eq, Structural)]
pub enum RecordKind {
    Chunk,
    Manifest,
    RootCommit,
}

impl RecordKind {
    pub open spec fn number(self) -> u16 {
        match self {
            RecordKind::Chunk => 1,
            RecordKind::Manifest => 2,
            RecordKind::RootCommit => 4,
        }
    }

    pub fn code(self) -> (code: u16)
        ensures
            code == self.number(),
    {
        match self {
            RecordKind::Chunk => 1,
            RecordKind::Manifest => 2,
            RecordKind::RootCommit => 4,
        }
    }

    /// The kind with the given number.
    pub fn of(code: u16) -> (kind: Result<Self, Error>)
        ensures
            kind == kind_numbered(code as nat),
    {
        if code == 1 {
            Ok(RecordKind::Chunk)
        } else if code == 2 {
            Ok(RecordKind::Manifest)
        } else if code == 4 {
            Ok(RecordKind::RootCommit)
        } else {
            Err(Error::Corruption("unknown record kind"))
        }
    }
}

/// The kind with the given number.
pub open spec fn kind_numbered(code: nat) -> Result<RecordKind, Error> {
    if code == 1 {
        Ok(RecordKind::Chunk)
    } else if code == 2 {
        Ok(RecordKind::Manifest)
    } else if code == 4 {
        Ok(RecordKind::RootCommit)
    } else {
        Err(Error::Corruption("unknown record kind"))
    }
}

#[derive(Clone, Copy, Debug, PartialEq, Eq, Structural)]
pub struct RecordHeader {
    pub kind: RecordKind,
    pub payload_len: u32,
    pub generation: u64,
    pub checksum: u64,
}

/// A header up to its checksum.
pub open spec fn front_bytes(kind: RecordKind, len: nat, generation: u64) -> Seq<u8> {
    le_bytes(MAGIC as nat, 4) + le_bytes(VERSION as nat, 2) + le_bytes(kind.number() as nat, 2)
        + le_bytes(len, 4) + le_bytes(generation as nat, 8)
}

pub open spec fn header_bytes(header: RecordHeader) -> Seq<u8> {
    front_bytes(header.kind, header.payload_len as nat, header.generation) + le_bytes(
        header.checksum as nat,
        8,
    ) + zeros(4)
}

/// The checksum of a record: the front of the digest of its header, with zeros in place
/// of the checksum, and its payload.
pub open spec fn record_checksum(kind: RecordKind, generation: u64, payload: Seq<u8>) -> nat {
    le_value(
        blake3_digest(front_bytes(kind, payload.len(), generation) + zeros(12) + payload)@.take(8),
    )
}

/// The checksum fills the field that it is stored in.
pub proof fn lemma_checksum_fits(kind: RecordKind, generation: u64, payload: Seq<u8>)
    ensures
        record_checksum(kind, generation, payload) <= u64::MAX,
{
    let hashed = front_bytes(kind, payload.len(), generation) + zeros(12) + payload;
    lemma_pow256_values();
    lemma_le_value_bound(blake3_digest(hashed)@.take(8));
}

/// The header that 32 bytes stand for, or what is wrong with them.
pub open spec fn header_of(bytes: Seq<u8>) -> Result<RecordHeader, Error> {
    let len = le_value(bytes.subrange(8, 12));
    if le_value(bytes.subrange(0, 4)) != MAGIC {
        Err(Error::Corruption("bad record magic"))
    } else if le_value(bytes.subrange(4, 6)) != VERSION {
        Err(Error::Corruption("unsupported record version"))
    } else if len > MAX_RECORD_PAYLOAD {
        Err(Error::Corruption("record too large"))
    } else {
        match kind_numbered(le_value(bytes.subrange(6, 8))) {
            Err(error) => Err(error),
            Ok(kind) => Ok(
                RecordHeader {
                    kind,
                    payload_len: len as u32,
                    generation: le_value(bytes.subrange(12, 20)) as u64,
                    checksum: le_value(bytes.subrange(20, 28)) as u64,
                },
            ),
        }
    }
}

proof fn lemma_front_len(kind: RecordKind, len: nat, generation: u64)
    ensures
        front_bytes(kind, len, generation).len() == 20,
{
    lemma_le_bytes_len(MAGIC as nat, 4);
    lemma_le_bytes_len(VERSION as nat, 2);
    lemma_le_bytes_len(kind.number() as nat, 2);
    lemma_le_bytes_len(len, 4);
    lemma_le_bytes_len(generation as nat, 8);
}

/// A header that was written reads back, and is told from unused space.
pub proof fn law_header_reads_back(header: RecordHeader)
    requires
        header.payload_len <= MAX_RECORD_PAYLOAD,
    ensures
        header_bytes(header).len() == 32,
        header_of(header_bytes(header)) == Ok::<RecordHeader, Error>(header),
        header_bytes(header) != zeros(32),
{
    let b = header_bytes(header);
    let magic = le_bytes(MAGIC as nat, 4);
    let version = le_bytes(VERSION as nat, 2);
    let kind = le_bytes(header.kind.number() as nat, 2);
    let len = le_bytes(header.payload_len as nat, 4);
    let generation = le_bytes(header.generation as nat, 8);
    let checksum = le_bytes(header.checksum as nat, 8);
    lemma_pow256_values();
    lemma_le_roundtrip(MAGIC as nat, 4);
    lemma_le_roundtrip(VERSION as nat, 2);
    lemma_le_roundtrip(header.kind.number() as nat, 2);
    lemma_le_roundtrip(header.payload_len as nat, 4);
    lemma_le_roundtrip(header.generation as nat, 8);
    lemma_le_roundtrip(header.checksum as nat, 8);
    assert(b.subrange(0, 4) =~= magic);
    assert(b.subrange(4, 6) =~= version);
    assert(b.subrange(6, 8) =~= kind);
    assert(b.subrange(8, 12) =~= len);
    assert(b.subrange(12, 20) =~= generation);
    assert(b.subrange(20, 28) =~= checksum);
    assert(magic[0] == 0x52) by {
        assert(MAGIC as nat % 256 == 0x52);
    }
    assert(b[0] == magic[0]);
    assert(zeros(32)[0] == 0);
}

impl RecordHeader {
    fn front(&self) -> (out: Vec<u8>)
        ensures
            out@ == front_bytes(self.kind, self.payload_len as nat, self.generation),
    {
        let mut out: Vec<u8> = Vec::new();
        push_le(&mut out, MAGIC as u64, 4);
        push_le(&mut out, VERSION as u64, 2);
        push_le(&mut out, self.kind.code() as u64, 2);
        push_le(&mut out, self.payload_len as u64, 4);
        push_le(&mut out, self.generation, 8);
        proof {
            assert(out@ =~= front_bytes(self.kind, self.payload_len as nat, self.generation));
        }
        out
    }

    /// The header with zeros in place of its checksum.
    pub fn encode_without_checksum(&self) -> (out: Vec<u8>)
        ensures
            out@ == front_bytes(self.kind, self.payload_len as nat, self.generation) + zeros(12),
    {
        let mut out = self.front();
        let rest = zero_bytes(12);
        push_all(&mut out, rest.as_slice());
        out
    }

    pub fn encode(&self) -> (out: Vec<u8>)
        ensures
            out@ == header_bytes(*self),
            out@.len() == 32,
    {
        let mut out = self.front();
        push_le(&mut out, self.checksum, 8);
        let rest = zero_bytes(4);
        push_all(&mut out, rest.as_slice());
        proof {
            lemma_front_len(self.kind, self.payload_len as nat, self.generation);
            lemma_le_bytes_len(self.checksum as nat, 8);
        }
        out
    }

    pub fn decode(bytes: &[u8]) -> (r: Result<Self, Error>)
        requires
            bytes@.len() == 32,
        ensures
            r == header_of(bytes@),
    {
        proof {
            lemma_pow256_values();
        }
        let magic: u64 = read_le(bytes, 0, 4);
        if magic != MAGIC as u64 {
            return Err(Error::Corruption("bad record magic"));
        }
        let version: u64 = read_le(bytes, 4, 2);
        if version != VERSION as u64 {
            return Err(Error::Corruption("unsupported record version"));
        }
        let len: u64 = read_le(bytes, 8, 4);
        if len > MAX_RECORD_PAYLOAD {
            return Err(Error::Corruption("record too large"));
        }
        let code: u64 = read_le(bytes, 6, 2);
        let kind = match RecordKind::of(code as u16) {
            Ok(kind) => kind,
            Err(error) => {
                return Err(error);
            },
        };
        Ok(
            RecordHeader {
                kind,
                payload_len: len as u32,
                generation: read_le(bytes, 12, 8),
                checksum: read_le(bytes, 20, 8),
            },
        )
    }
}

/// The checksum of the record with the given header and payload.
pub fn checksum(header: &RecordHeader, payload: &[u8]) -> (sum: u64)
    requires
        payload@.len() == header.payload_len,
    ensures
        sum == record_checksum(header.kind, header.generation, payload@),
{
    let base = header.encode_without_checksum();
    let mut hasher = hasher_new();
    hasher_update(&mut hasher, base.as_slice());
    hasher_update(&mut hasher, payload);
    let digest = hasher_finish(&hasher);
    proof {
        assert(Seq::<u8>::empty() + base@ + payload@ =~= base@ + payload@);
        assert(digest@.subrange(0, 8) =~= digest@.take(8));
    }
    read_le(digest.as_slice(), 0, 8)
}

/// The next multiple of eight.
pub open spec fn aligned(n: int) -> int {
    (n + 7) / 8 * 8
}

/// The next multiple of eight, if it fits.
pub fn align(n: u64) -> (r: Result<u64, Error>)
    ensures
        r == if n + 7 > u64::MAX {
            Err(Error::Corruption("offset overflow"))
        } else {
            Ok(aligned(n as int) as u64)
        },
        r is Ok ==> n <= r->Ok_0 < n + 8,
{
    match n.checked_add(7) {
        Some(sum) => Ok(sum / 8 * 8),
        None => Err(Error::Corruption("offset overflow")),
    }
}

} // verus!
