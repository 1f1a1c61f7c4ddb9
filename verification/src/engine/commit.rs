//! Committing a root.
use vstd::prelude::*;

use crate::bytes::{le_bytes, lemma_le_bytes_len, push_all, push_le, splice};
use crate::device::block::{between, faithful, lemma_between_again, saved, BlockDevice};
use crate::engine::format::{
    header_base, header_bytes, law_header_reads_back, lemma_checksum_fits, lemma_digest_id,
    lemma_header_len, lemma_object_id, lemma_super_body_len, object_id, record_checksum,
    record_digest, super_bytes, Error, Generation, Header, Kind, ObjectId, Root, Super, MAX_PAYLOAD,
    RECORDS_START, SLOT_SIZE,
};
use crate::engine::log::{
    after_append, append_problem, manifest_problem, new_header, poisoned, record_at, with_record,
    StoreView,
};
use crate::engine::store::{check_manifest, faulted, read_record, Store};
use crate::engine::write::same_store;

verus! {

/// The payload of a root's record.
pub open spec fn root_payload(manifest: ObjectId, generation: u64) -> Seq<u8> {
    manifest@ + le_bytes(generation as nat, 8)
}

/// Why a manifest cannot be committed, if it cannot.
pub open spec fn commit_problem(
    v: StoreView,
    c: Seq<u8>,
    manifest: ObjectId,
    generation: u64,
) -> Option<Error> {
    if v.requires_recovery {
        Some(Error::RequiresRecovery)
    } else if generation == 0 {
        Some(Error::InvalidInput("root generation must be non-zero"))
    } else if !(v.index.dom().contains(manifest) && v.index[manifest].kind is Manifest) {
        Some(Error::NotFound(manifest))
    } else if v.root is Some && generation <= v.root->0.generation {
        Some(Error::InvalidInput("root generation must increase"))
    } else {
        manifest_problem(v.index, c, manifest)
    }
}

/// The superblock of a new root.
pub open spec fn new_super(v: StoreView, manifest: ObjectId, generation: u64) -> Super {
    Super {
        generation,
        root_offset: v.append_offset,
        root_len: 72,
        manifest,
        root_digest: object_id(
            record_digest(Kind::Root, generation, root_payload(manifest, generation)),
        ),
    }
}

/// What the store knows after a commit.
pub open spec fn committed_view(v: StoreView, manifest: ObjectId, generation: u64) -> StoreView {
    StoreView {
        root: Some(Root { generation, manifest }),
        active: (1 - v.active) as u8,
        ..after_append(v, Kind::Root, root_payload(manifest, generation), generation)
    }
}

/// The bytes of the device after a commit: the root's record is written first, then
/// the superblock that leads to it, in the slot that was not in use.
pub open spec fn committed_bytes(
    v: StoreView,
    c: Seq<u8>,
    manifest: ObjectId,
    generation: u64,
) -> Seq<u8> {
    splice(
        with_record(
            c,
            v.append_offset as int,
            Kind::Root,
            root_payload(manifest, generation),
            generation,
        ),
        (1 - v.active) * SLOT_SIZE,
        super_bytes(new_super(v, manifest, generation)),
    )
}

/// The digests of a new root fill the fields that they are stored in.
pub proof fn lemma_sealed(v: StoreView, manifest: ObjectId, generation: u64)
    ensures
        record_checksum(Kind::Root, generation, root_payload(manifest, generation)) <= u64::MAX,
        new_super(v, manifest, generation).root_digest@ == record_digest(
            Kind::Root,
            generation,
            root_payload(manifest, generation),
        ),
        super_bytes(new_super(v, manifest, generation)).len() == 128,
{
    let payload = root_payload(manifest, generation);
    lemma_checksum_fits(Kind::Root, generation, payload);
    lemma_digest_id(header_base(Kind::Root, payload.len(), generation) + payload);
    lemma_super_body_len(new_super(v, manifest, generation));
}

/// Whether a power loss leaves a commit cut short in one of two ways: part of the root's
/// record is written and no superblock, or the whole record and part of the superblock.
pub open spec fn commit_leaves<D: BlockDevice>(
    before: Store<D>,
    after: Store<D>,
    manifest: ObjectId,
    generation: u64,
) -> bool {
    let v = before@;
    let c = before.device.contents();
    let d = after.device.durable();
    let recorded = with_record(
        c,
        v.append_offset as int,
        Kind::Root,
        root_payload(manifest, generation),
        generation,
    );
    before.device.steady() && saved(before.device) ==> if commit_problem(
        v,
        c,
        manifest,
        generation,
    ) is Some || append_problem(v.append_offset, c.len(), 40) is Some {
        d == c
    } else {
        between(d, c, recorded) || between(
            d,
            recorded,
            committed_bytes(v, c, manifest, generation),
        )
    }
}

/// Whether the store is what a commit leaves that the device failed. Where only reading
/// failed, before or after the root's record was appended, the store goes on; a failed write
/// or flush leaves it to be opened anew.
pub open spec fn commit_failed<D: BlockDevice>(
    before: Store<D>,
    after: Store<D>,
    manifest: ObjectId,
    generation: u64,
) -> bool {
    let v = before@;
    let c = before.device.contents();
    let payload = root_payload(manifest, generation);
    let appended = after_append(v, Kind::Root, payload, generation);
    ||| same_store(before, after)
    ||| after@ == poisoned(v)
    ||| after@ == appended && (faithful(before.device) ==> after.device.contents() == with_record(
        c,
        v.append_offset as int,
        Kind::Root,
        payload,
        generation,
    ))
    ||| after@ == poisoned(appended)
}

/// Whether the answer and the store are what a commit comes to.
pub open spec fn commit_right<D: BlockDevice>(
    before: Store<D>,
    after: Store<D>,
    manifest: ObjectId,
    generation: u64,
    r: Result<Root, Error>,
) -> bool {
    let v = before@;
    let c = before.device.contents();
    let reliable = before.device.reliable();
    &&& after.wf()
    &&& after.device.reliable() == reliable
    &&& after.device.contents().len() == c.len()
    &&& before.device.steady() ==> after.device.steady() && (r is Ok ==> saved(after.device))
    &&& commit_leaves(before, after, manifest, generation)
    &&& match commit_problem(v, c, manifest, generation) {
        Some(error) => same_store(before, after) && (r == Err::<Root, Error>(error) || faulted(
            r,
            reliable,
        )),
        None => match append_problem(v.append_offset, c.len(), 40) {
            Some(error) => faulted(r, reliable) && same_store(before, after) || r == Err::<
                Root,
                Error,
            >(error) && after.device.contents() == c && after@ == if error is Capacity {
                v
            } else {
                poisoned(v)
            },
            None => match r {
                Ok(root) => root == (Root { generation, manifest }) && after@ == committed_view(
                    v,
                    manifest,
                    generation,
                ) && (faithful(before.device)
                    ==> after.device.contents() == committed_bytes(v, c, manifest, generation)),
                Err(error) => !reliable && commit_failed(before, after, manifest, generation),
            },
        },
    }
}

/// A record that was written reads back.
pub proof fn law_record_reads_back(
    c: Seq<u8>,
    at: int,
    kind: Kind,
    payload: Seq<u8>,
    generation: u64,
)
    requires
        at % 8 == 0,
        at >= RECORDS_START,
        at + 32 + payload.len() <= c.len(),
        payload.len() <= MAX_PAYLOAD,
    ensures
        record_at(with_record(c, at, kind, payload, generation), at) == Ok::<
            (Header, Seq<u8>),
            Error,
        >((new_header(kind, payload, generation), payload)),
        with_record(c, at, kind, payload, generation).len() == c.len(),
{
    lemma_checksum_fits(kind, generation, payload);
    let header = new_header(kind, payload, generation);
    let after = with_record(c, at, kind, payload, generation);
    lemma_header_len(header);
    law_header_reads_back(header);
    assert(after.len() == c.len());
    assert(after.subrange(at, at + 32) =~= header_bytes(header));
    assert(after.subrange(at + 32, at + 32 + header.len) =~= payload);
}

impl<D: BlockDevice> Store<D> {
    /// Commits a manifest as the root of a later generation. After a crash the store
    /// has this root or the one before.
    pub fn commit_root(&mut self, manifest: ObjectId, generation: Generation) -> (r: Result<
        Root,
        Error,
    >)
        requires
            old(self).wf(),
        ensures
            commit_right(*old(self), *final(self), manifest, generation, r),
    {
        if self.requires_recovery {
            return Err(Error::RequiresRecovery);
        }
        if generation == 0 {
            return Err(Error::InvalidInput("root generation must be non-zero"));
        }
        match self.index.get(&manifest) {
            Some(entry) => {
                if entry.kind != Kind::Manifest {
                    return Err(Error::NotFound(manifest));
                }
            },
            None => {
                return Err(Error::NotFound(manifest));
            },
        }
        if let Some(root) = self.root {
            if generation <= root.generation {
                return Err(Error::InvalidInput("root generation must increase"));
            }
        }
        proof {
            lemma_le_bytes_len(generation as nat, 8);
            lemma_header_len(
                new_header(Kind::Root, root_payload(manifest, generation), generation),
            );
        }
        match check_manifest(&mut self.device, &self.index, &manifest) {
            Ok(_) => {},
            Err(error) => {
                return Err(error);
            },
        }
        self.write_root(manifest, generation)
    }

    /// Writes a root that may be committed.
    fn write_root(&mut self, manifest: ObjectId, generation: Generation) -> (r: Result<Root, Error>)
        requires
            old(self).wf(),
            commit_problem(old(self)@, old(self).device.contents(), manifest, generation) is None,
        ensures
            commit_right(*old(self), *final(self), manifest, generation, r),
    {
        let ghost before = *self;
        let ghost v = self@;
        let ghost c = self.device.contents();
        let mut payload: Vec<u8> = Vec::new();
        push_all(&mut payload, manifest.as_slice());
        push_le(&mut payload, generation, 8);
        proof {
            lemma_le_bytes_len(generation as nat, 8);
            assert(payload@ =~= root_payload(manifest, generation));
            assert(payload@.len() == 40);
        }
        let off: u64 = match self.append(Kind::Root, payload.as_slice(), generation) {
            Ok(off) => off,
            Err(Error::Capacity) => {
                return Err(Error::Capacity);
            },
            Err(error) => {
                self.requires_recovery = true;
                return Err(error);
            },
        };
        let ghost appended = self@;
        let ghost recorded = with_record(c, off as int, Kind::Root, payload@, generation);
        let ghost steady = before.device.steady() && saved(before.device);
        proof {
            lemma_header_len(new_header(Kind::Root, payload@, generation));
            if before.device.reliable() {
                law_record_reads_back(c, off as int, Kind::Root, payload@, generation);
            }
        }
        match read_record(&mut self.device, off) {
            Ok(_) => {},
            Err(error) => {
                return Err(error);
            },
        }
        let root_header = Header { kind: Kind::Root, len: 40, generation, checksum: 0 };
        let root_digest = root_header.digest(payload.as_slice());
        proof {
            lemma_object_id(root_digest);
        }
        let s = Super { generation, root_offset: off, root_len: 72, manifest, root_digest };
        let bytes = s.encode();
        let inactive: u8 = 1 - self.active;
        let at: u64 = if inactive == 0 {
            0
        } else {
            SLOT_SIZE
        };
        let wrote = self.device.write_at(at, bytes.as_slice());
        let ghost cut = self.device.durable();
        match wrote {
            Ok(_) => {},
            Err(error) => {
                self.requires_recovery = true;
                return Err(Error::Device(error));
            },
        }
        let flushed = self.device.flush_all();
        proof {
            if steady {
                lemma_between_again(
                    cut,
                    self.device.durable(),
                    recorded,
                    committed_bytes(v, c, manifest, generation),
                );
            }
        }
        match flushed {
            Ok(_) => {},
            Err(error) => {
                self.requires_recovery = true;
                return Err(Error::Device(error));
            },
        }
        self.active = inactive;
        let root = Root { generation, manifest };
        self.root = Some(root);
        Ok(root)
    }
}

} // verus!
