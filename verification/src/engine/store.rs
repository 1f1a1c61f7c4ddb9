//! The object store.
use vstd::prelude::*;

use crate::bytes::{id_at, push_all, read_le, same_id, splice, zero_bytes, zeros};
use crate::device::block::{faithful, in_bounds, saved, untouched, BlockDevice, DeviceError};
use crate::engine::format::{
    all_zero, chunk_id, front_value, layout_of, lemma_object_id, lemma_total_bound, manifest_id,
    manifest_layout, manifest_ref, super_bytes, total_len, ChunkRef, Error, Header, Kind, ObjectId,
    Root, Super, MAX_MANIFEST_CHUNKS, MAX_PAYLOAD, RECORDS_START, SLOT_SIZE,
};
use crate::engine::log::{
    aligned, body_of, candidate_valid, chunk_bytes, chunk_problem, committed_end, load, manifest_of,
    manifest_problem, open_best, open_outcome, opened, record_at, refs_of, scan_log, slot_super,
    tail_of, Entry, StoreView,
};
use crate::first::{lemma_first_at, lemma_first_clear};
use crate::table::Table;

verus! {

/// A failure of the device, which a reliable device does not have.
pub open spec fn faulted<T>(r: Result<T, Error>, reliable: bool) -> bool {
    r matches Err(Error::Device(_)) && !reliable
}

/// The next multiple of eight.
pub fn align(n: u64) -> (r: Result<u64, Error>)
    ensures
        r == if n + 7 > u64::MAX {
            Err(Error::Corruption("offset overflow"))
        } else {
            Ok(aligned(n as int) as u64)
        },
        r is Ok ==> n <= r->Ok_0 < n + 8 && r->Ok_0 % 8 == 0,
{
    match n.checked_add(7) {
        Some(sum) => Ok(sum / 8 * 8),
        None => Err(Error::Corruption("offset overflow")),
    }
}

/// How many bytes of the log a record takes.
pub fn record_span(payload_len: usize) -> (r: Result<u64, Error>)
    ensures
        r == if payload_len + 32 > usize::MAX {
            Err(Error::InvalidInput("record size overflow"))
        } else if payload_len + 32 + 7 > u64::MAX {
            Err(Error::Corruption("offset overflow"))
        } else {
            Ok(aligned(payload_len + 32) as u64)
        },
{
    match payload_len.checked_add(32) {
        Some(bytes) => align(bytes as u64),
        None => Err(Error::InvalidInput("record size overflow")),
    }
}

/// Reads a record.
pub(crate) fn read_record<D: BlockDevice>(device: &mut D, off: u64) -> (r: Result<(Header, Vec<u8>), Error>)
    requires
        old(device).wf(),
    ensures
        untouched(*old(device), *final(device)),
        faulted(r, old(device).reliable()) || match record_at(old(device).contents(), off as int) {
            Err(error) => r == Err::<(Header, Vec<u8>), Error>(error),
            Ok((header, payload)) => r is Ok && r->Ok_0.0 == header && r->Ok_0.1@ == payload
                && payload.len() == header.len,
        },
{
    let ghost c = device.contents();
    let capacity: u64 = device.len();
    if off % 8 != 0 || off < RECORDS_START || capacity < 32 || off > capacity - 32 {
        return Err(Error::Corruption("record offset"));
    }
    let mut front: Vec<u8> = zero_bytes(32);
    match device.read_at(off, front.as_mut_slice()) {
        Err(error) => {
            return Err(Error::Device(error));
        },
        Ok(_) => {},
    }
    proof {
        assert(front@ =~= c.subrange(off as int, off + 32));
    }
    let header = match Header::decode(front.as_slice()) {
        Ok(header) => header,
        Err(error) => {
            return Err(error);
        },
    };
    if header.len as u64 > capacity - 32 - off {
        return Err(Error::Corruption("truncated record"));
    }
    let mut payload: Vec<u8> = zero_bytes(header.len as usize);
    match device.read_at(off + 32, payload.as_mut_slice()) {
        Err(error) => {
            return Err(Error::Device(error));
        },
        Ok(_) => {},
    }
    proof {
        assert(payload@ =~= c.subrange(off + 32, off + 32 + header.len));
    }
    let digest = header.digest(payload.as_slice());
    if front_value(&digest) != header.checksum {
        return Err(Error::Corruption("record checksum"));
    }
    Ok((header, payload))
}

pub struct Store<D: BlockDevice> {
    pub device: D,
    pub index: Table<ObjectId, Entry>,
    pub root: Option<Root>,
    pub append_offset: u64,
    pub active: u8,
    pub requires_recovery: bool,
}

impl<D: BlockDevice> View for Store<D> {
    type V = StoreView;

    open spec fn view(&self) -> StoreView {
        StoreView {
            index: self.index@,
            root: self.root,
            append_offset: self.append_offset,
            active: self.active,
            requires_recovery: self.requires_recovery,
        }
    }
}

/// What was read of a slot: its bytes, if they could be read. A reliable device reads
/// what it has.
pub open spec fn slot_read(
    c: Seq<u8>,
    off: u64,
    reliable: bool,
    read: Result<Seq<u8>, DeviceError>,
) -> bool {
    &&& read matches Ok(bytes) ==> in_bounds(off, 128, c.len()) && bytes == c.subrange(
        off as int,
        off + 128,
    )
    &&& !in_bounds(off, 128, c.len()) ==> read == Err::<Seq<u8>, DeviceError>(
        DeviceError::OutOfBounds { offset: off, len: 128, capacity: c.len() as u64 },
    )
    &&& reliable && in_bounds(off, 128, c.len()) ==> read is Ok
}

/// Whether the answer is what opening the device comes to.
pub open spec fn open_right<D: BlockDevice>(device: D, r: Result<Store<D>, Error>) -> bool {
    let c = device.contents();
    let reliable = device.reliable();
    faulted(r, reliable) || exists|a: Result<Seq<u8>, DeviceError>, b: Result<Seq<u8>, DeviceError>|
        #[trigger] slot_read(c, 0, reliable, a) && #[trigger] slot_read(c, SLOT_SIZE, reliable, b)
            && match open_outcome(c, a, b) {
            Err(error) => r == Err::<Store<D>, Error>(error),
            Ok(view) => r is Ok && r->Ok_0@ == view,
        }
}

/// Reads a slot. One that cannot be read is left as zeros.
fn read_slot<D: BlockDevice>(device: &mut D, off: u64) -> (r: (Vec<u8>, Result<(), DeviceError>))
    requires
        old(device).wf(),
    ensures
        untouched(*old(device), *final(device)),
        r.0@.len() == 128,
        r.1 is Err ==> r.0@ == zeros(128),
        slot_read(
            old(device).contents(),
            off,
            old(device).reliable(),
            match r.1 {
                Ok(_) => Ok(r.0@),
                Err(error) => Err(error),
            },
        ),
{
    let mut bytes: Vec<u8> = zero_bytes(128);
    match device.read_at(off, bytes.as_mut_slice()) {
        Ok(done) => (bytes, Ok(done)),
        Err(error) => (zero_bytes(128), Err(error)),
    }
}

/// Checks the record that a superblock leads to.
fn root_candidate_valid<D: BlockDevice>(device: &mut D, s: &Super) -> (r: Result<bool, Error>)
    requires
        old(device).wf(),
    ensures
        untouched(*old(device), *final(device)),
        faulted(r, old(device).reliable()) || r == candidate_valid(old(device).contents(), *s),
{
    let ghost c = device.contents();
    if s.root_offset == 0 {
        return Ok(s.generation == 0 && s.root_len == 0);
    }
    let capacity: u64 = device.len();
    if s.root_offset % 8 != 0 || s.root_offset < RECORDS_START || s.root_len != 72 || capacity < 72
        || s.root_offset > capacity - 72 {
        return Ok(false);
    }
    let mut front: Vec<u8> = zero_bytes(32);
    match device.read_at(s.root_offset, front.as_mut_slice()) {
        Err(error) => {
            return Err(Error::Device(error));
        },
        Ok(_) => {},
    }
    proof {
        assert(front@ =~= c.subrange(s.root_offset as int, s.root_offset + 32));
    }
    let header = match Header::decode(front.as_slice()) {
        Ok(header) => header,
        Err(Error::UnsupportedFormat) => {
            return Err(Error::UnsupportedFormat);
        },
        Err(_) => {
            return Ok(false);
        },
    };
    if header.kind != Kind::Root || header.generation != s.generation || header.len != 40 {
        return Ok(false);
    }
    let mut payload: Vec<u8> = zero_bytes(40);
    match device.read_at(s.root_offset + 32, payload.as_mut_slice()) {
        Err(error) => {
            return Err(Error::Device(error));
        },
        Ok(_) => {},
    }
    let digest = header.digest(payload.as_slice());
    let manifest = id_at(payload.as_slice(), 0);
    proof {
        assert(payload@ =~= c.subrange(s.root_offset + 32, s.root_offset + 72));
        assert(payload@.subrange(0, 32) =~= payload@.take(32));
    }
    Ok(same_id(&manifest, &s.manifest) && same_id(&digest, &s.root_digest))
}

impl<D: BlockDevice> Store<D> {
    /// The store's invariant: the device's, and that records are appended where a
    /// record can start.
    pub open spec fn wf(&self) -> bool {
        &&& self.device.wf()
        &&& self.append_offset % 8 == 0
        &&& self.append_offset >= RECORDS_START
        &&& self.active <= 1
    }

    /// Formats a device as an empty store.
    pub fn format(device: D) -> (r: Result<Self, Error>)
        requires
            device.wf(),
        ensures
            device.contents().len() < RECORDS_START + 4096 ==> r == Err::<Self, Error>(
                Error::InvalidInput("device too small"),
            ),
            device.contents().len() >= RECORDS_START + 4096 ==> faulted(r, device.reliable()) || {
                &&& r is Ok
                &&& r->Ok_0.wf()
                &&& r->Ok_0@ == (StoreView {
                    index: Map::empty(),
                    root: None,
                    append_offset: RECORDS_START,
                    active: 0,
                    requires_recovery: false,
                })
                &&& r->Ok_0.device.reliable() == device.reliable()
                &&& r->Ok_0.device.contents().len() == device.contents().len()
                &&& device.steady() ==> r->Ok_0.device.steady() && saved(r->Ok_0.device)
                &&& faithful(device) ==> exists|s: Super|
                    s.generation == 0 && s.root_offset == 0 && s.root_len == 0 && s.manifest@
                        == zeros(32) && s.root_digest@ == zeros(32)
                        && #[trigger] super_bytes(s).len() == 128
                        && r->Ok_0.device.contents() == splice(
                        splice(device.contents(), 0, super_bytes(s)),
                        SLOT_SIZE as int,
                        super_bytes(s),
                    )
            },
    {
        let mut device = device;
        if device.len() < RECORDS_START + 4096 {
            return Err(Error::InvalidInput("device too small"));
        }
        let s = Super::empty();
        let bytes = s.encode();
        match device.write_at(0, bytes.as_slice()) {
            Err(error) => {
                return Err(Error::Device(error));
            },
            Ok(_) => {},
        }
        match device.write_at(SLOT_SIZE, bytes.as_slice()) {
            Err(error) => {
                return Err(Error::Device(error));
            },
            Ok(_) => {},
        }
        match device.flush_all() {
            Err(error) => {
                return Err(Error::Device(error));
            },
            Ok(_) => {},
        }
        proof {
            assert(super_bytes(s).len() == 128);
        }
        Ok(
            Store {
                device,
                index: Table::new(),
                root: None,
                append_offset: RECORDS_START,
                active: 0,
                requires_recovery: false,
            },
        )
    }

    /// Scans the committed records into an index.
    fn scan(device: &mut D, end: u64) -> (r: Result<Table<ObjectId, Entry>, Error>)
        requires
            old(device).wf(),
            end >= RECORDS_START,
            end <= old(device).contents().len() || end == RECORDS_START,
        ensures
            untouched(*old(device), *final(device)),
            faulted(r, old(device).reliable()) || match scan_log(
                old(device).contents(),
                RECORDS_START as int,
                end as int,
                Map::empty(),
            ) {
                Err(error) => r == Err::<Table<ObjectId, Entry>, Error>(error),
                Ok(index) => r is Ok && r->Ok_0@ == index,
            },
    {
        let ghost c = device.contents();
        let ghost first = *device;
        let capacity: u64 = device.len();
        let mut index: Table<ObjectId, Entry> = Table::new();
        let mut o: u64 = RECORDS_START;
        while o < end
            invariant
                untouched(first, *device),
                first == *old(device),
                c == device.contents(),
                capacity == c.len(),
                o <= end,
                end <= c.len() || end == RECORDS_START,
                scan_log(c, RECORDS_START as int, end as int, Map::empty()) == scan_log(
                    c,
                    o as int,
                    end as int,
                    index@,
                ),
            decreases end - o,
        {
            let (header, payload) = match read_record(device, o) {
                Ok(found) => found,
                Err(error) => {
                    return Err(error);
                },
            };
            let next: u64 = match align(o + 32 + payload.len() as u64) {
                Ok(next) => next,
                Err(error) => {
                    return Err(error);
                },
            };
            if next > end {
                return Err(Error::Corruption("committed boundary"));
            }
            if header.kind != Kind::Root {
                if payload.len() < 32 {
                    return Err(Error::Corruption("object payload"));
                }
                let id = id_at(payload.as_slice(), 0);
                let rest = vstd::slice::slice_subrange(payload.as_slice(), 32, payload.len());
                let expected = if header.kind == Kind::Chunk {
                    chunk_id(rest)
                } else {
                    manifest_id(rest)
                };
                proof {
                    assert(payload@.subrange(0, 32) =~= payload@.take(32));
                    assert(payload@.subrange(32, payload@.len() as int) =~= payload@.skip(32));
                    lemma_object_id(id);
                }
                if !same_id(&expected, &id) {
                    return Err(Error::Corruption("object hash"));
                }
                if !index.contains_key(&id) {
                    index.insert(
                        id,
                        Entry { offset: o, kind: header.kind, len: header.len },
                    );
                }
            }
            o = next;
        }
        Ok(index)
    }

    /// Finds where the records that follow each other end.
    fn tail(device: &mut D, start: u64) -> (r: Result<u64, Error>)
        requires
            old(device).wf(),
            start % 8 == 0,
            start >= RECORDS_START,
            start <= old(device).contents().len() || start == RECORDS_START,
        ensures
            untouched(*old(device), *final(device)),
            faulted(r, old(device).reliable()) || match tail_of(
                old(device).contents(),
                start as int,
            ) {
                Err(error) => r == Err::<u64, Error>(error),
                Ok(end) => r is Ok && r->Ok_0 == end && end % 8 == 0 && end >= start,
            },
    {
        let ghost c = device.contents();
        let ghost first = *device;
        let capacity: u64 = device.len();
        let mut o: u64 = start;
        while capacity >= 32 && o <= capacity - 32
            invariant
                untouched(first, *device),
                first == *old(device),
                c == device.contents(),
                capacity == c.len(),
                o % 8 == 0,
                start <= o,
                start >= RECORDS_START,
                tail_of(c, start as int) == tail_of(c, o as int),
            decreases capacity + 8 - o,
        {
            let mut front: Vec<u8> = zero_bytes(32);
            match device.read_at(o, front.as_mut_slice()) {
                Err(error) => {
                    return Err(Error::Device(error));
                },
                Ok(_) => {},
            }
            proof {
                assert(front@ =~= c.subrange(o as int, o + 32));
            }
            if all_zero(front.as_slice()) {
                return Ok(o);
            }
            match read_record(device, o) {
                Ok((_, payload)) => {
                    o = match align(o + 32 + payload.len() as u64) {
                        Ok(next) => next,
                        Err(error) => {
                            return Err(error);
                        },
                    };
                },
                Err(Error::Corruption(_)) => {
                    return Ok(o);
                },
                Err(error) => {
                    return Err(error);
                },
            }
        }
        Ok(o)
    }

    /// Loads what a superblock leads to. `None` means that it is damaged.
    fn load_super(device: &mut D, s: &Super) -> (r: Result<
        Option<(Table<ObjectId, Entry>, Option<Root>)>,
        Error,
    >)
        requires
            old(device).wf(),
            candidate_valid(old(device).contents(), *s) == Ok::<bool, Error>(true),
        ensures
            untouched(*old(device), *final(device)),
            faulted(r, old(device).reliable()) || match load(old(device).contents(), *s) {
                Err(error) => r == Err::<
                    Option<(Table<ObjectId, Entry>, Option<Root>)>,
                    Error,
                >(error),
                Ok(None) => r is Ok && r->Ok_0 is None,
                Ok(Some((index, root))) => r matches Ok(Some((table, found))) && table@ == index
                    && found == root,
            },
    {
        let end: u64 = Self::end_of(device, s);
        let index = match Self::scan(device, end) {
            Ok(index) => index,
            Err(error) => {
                return match error {
                    Error::Corruption(_) | Error::NotFound(_) => Ok(None),
                    _ => Err(error),
                };
            },
        };
        if s.root_offset == 0 {
            return Ok(Some((index, None)));
        }
        let (header, payload) = match read_record(device, s.root_offset) {
            Ok(found) => found,
            Err(error) => {
                return match error {
                    Error::Corruption(_) | Error::NotFound(_) => Ok(None),
                    _ => Err(error),
                };
            },
        };
        if header.kind != Kind::Root || header.generation != s.generation || payload.len() != 40 {
            return Ok(None);
        }
        let manifest = id_at(payload.as_slice(), 0);
        let generation: u64 = read_le(payload.as_slice(), 32, 8);
        let digest = header.digest(payload.as_slice());
        proof {
            assert(payload@.subrange(0, 32) =~= payload@.take(32));
        }
        if !same_id(&manifest, &s.manifest) || generation != s.generation || !same_id(
            &digest,
            &s.root_digest,
        ) {
            return Ok(None);
        }
        match check_manifest(device, &index, &s.manifest) {
            Ok(_) => Ok(
                Some(
                    (index, Some(Root { generation: s.generation, manifest: s.manifest })),
                ),
            ),
            Err(error) => match error {
                Error::Corruption(_) | Error::NotFound(_) | Error::WrongObjectKind(_) => Ok(None),
                _ => Err(error),
            },
        }
    }

    /// Opens the store on the first of the superblocks that is intact.
    fn open_on(device: D, first: Super, first_slot: u8, second: Option<(Super, u8)>) -> (r: Result<
        Self,
        Error,
    >)
        requires
            device.wf(),
            first_slot <= 1,
            candidate_valid(device.contents(), first) == Ok::<bool, Error>(true),
            second matches Some((s, slot)) ==> slot <= 1 && candidate_valid(device.contents(), s)
                == Ok::<bool, Error>(true),
        ensures
            r matches Ok(store) ==> store.wf() && untouched(device, store.device),
            faulted(r, device.reliable()) || match open_best(
                device.contents(),
                (first, first_slot),
                second,
            ) {
                Err(error) => r == Err::<Self, Error>(error),
                Ok(view) => r is Ok && r->Ok_0@ == view,
            },
    {
        let mut device = device;
        match Self::load_super(&mut device, &first) {
            Ok(Some((index, root))) => {
                return Self::finish_open(device, first, first_slot, index, root);
            },
            Ok(None) => {},
            Err(error) => {
                return Err(error);
            },
        }
        let (other, other_slot) = match second {
            Some(second) => second,
            None => {
                return Err(Error::Corruption("no complete generation"));
            },
        };
        match Self::load_super(&mut device, &other) {
            Ok(Some((index, root))) => Self::finish_open(device, other, other_slot, index, root),
            Ok(None) => Err(Error::Corruption("no complete generation")),
            Err(error) => Err(error),
        }
    }

    /// Where the committed records of a superblock end.
    fn end_of(device: &D, s: &Super) -> (end: u64)
        requires
            device.wf(),
            candidate_valid(device.contents(), *s) == Ok::<bool, Error>(true),
        ensures
            end == committed_end(*s),
            end % 8 == 0,
            end >= RECORDS_START,
            end <= device.contents().len() || end == RECORDS_START,
    {
        let capacity: u64 = device.len();
        if s.root_offset == 0 {
            RECORDS_START
        } else {
            s.root_offset + 72
        }
    }

    fn finish_open(
        device: D,
        s: Super,
        slot: u8,
        index: Table<ObjectId, Entry>,
        root: Option<Root>,
    ) -> (r: Result<Self, Error>)
        requires
            device.wf(),
            slot <= 1,
            candidate_valid(device.contents(), s) == Ok::<bool, Error>(true),
        ensures
            r matches Ok(store) ==> store.wf() && untouched(device, store.device),
            faulted(r, device.reliable()) || match opened(
                device.contents(),
                s,
                slot,
                index@,
                root,
            ) {
                Err(error) => r == Err::<Self, Error>(error),
                Ok(view) => r is Ok && r->Ok_0@ == view,
            },
    {
        let mut device = device;
        let end: u64 = Self::end_of(&device, &s);
        match Self::tail(&mut device, end) {
            Ok(append_offset) => Ok(
                Store {
                    device,
                    index,
                    root,
                    append_offset,
                    active: slot,
                    requires_recovery: false,
                },
            ),
            Err(error) => Err(error),
        }
    }

    /// Opens a store. The newest superblock that leads to intact records counts; where
    /// it is damaged, the one before is taken.
    pub fn open(device: D) -> (r: Result<Self, Error>)
        requires
            device.wf(),
        ensures
            r matches Ok(store) ==> store.wf() && untouched(device, store.device),
            open_right(device, r),
    {
        let mut device = device;
        let ghost first = device;
        let ghost c = device.contents();
        let ghost reliable = device.reliable();
        let (a, read_a) = read_slot(&mut device, 0);
        let (b, read_b) = read_slot(&mut device, SLOT_SIZE);
        let ghost ra: Result<Seq<u8>, DeviceError> = match read_a {
            Ok(_) => Ok(a@),
            Err(error) => Err(error),
        };
        let ghost rb: Result<Seq<u8>, DeviceError> = match read_b {
            Ok(_) => Ok(b@),
            Err(error) => Err(error),
        };
        proof {
            assert(slot_read(c, 0, reliable, ra));
            assert(slot_read(c, SLOT_SIZE, reliable, rb));
        }
        match (read_a, read_b) {
            (Err(error), Err(_)) => {
                return Err(Error::Device(error));
            },
            (Ok(_), Err(error)) => {
                if all_zero(a.as_slice()) {
                    return Err(Error::Device(error));
                }
            },
            _ => {},
        }
        let da = Super::decode(a.as_slice());
        let db = Super::decode(b.as_slice());
        proof {
            assert(da == slot_super(ra));
            assert(db == slot_super(rb));
        }
        if matches!(da, Err(Error::UnsupportedFormat)) || matches!(
            db,
            Err(Error::UnsupportedFormat)
        ) {
            return Err(Error::UnsupportedFormat);
        }
        let valid_a = match &da {
            Ok(s) => match root_candidate_valid(&mut device, s) {
                Ok(valid) => valid,
                Err(error) => {
                    return Err(error);
                },
            },
            Err(_) => false,
        };
        let valid_b = match &db {
            Ok(s) => match root_candidate_valid(&mut device, s) {
                Ok(valid) => valid,
                Err(error) => {
                    return Err(error);
                },
            },
            Err(_) => false,
        };
        if let (Ok(sa), Ok(sb)) = (&da, &db) {
            if valid_a && valid_b {
                if sa.generation == sb.generation && !(sa.root_offset == sb.root_offset
                    && sa.root_len == sb.root_len && same_id(&sa.manifest, &sb.manifest)
                    && same_id(&sa.root_digest, &sb.root_digest)) {
                    return Err(Error::Corruption("conflicting superblocks"));
                }
                if sb.generation > sa.generation {
                    return Self::open_on(device, *sb, 1, Some((*sa, 0)));
                }
                return Self::open_on(device, *sa, 0, Some((*sb, 1)));
            }
        }
        if valid_a {
            if let Ok(sa) = da {
                return Self::open_on(device, sa, 0, None);
            }
        }
        if valid_b {
            if let Ok(sb) = db {
                return Self::open_on(device, sb, 1, None);
            }
        }
        if matches!(da, Err(Error::Unformatted)) && matches!(db, Err(Error::Unformatted)) {
            Err(Error::Unformatted)
        } else {
            Err(Error::Corruption("no valid superblock"))
        }
    }

    pub fn current_root(&self) -> (root: Option<Root>)
        ensures
            root == self@.root,
    {
        self.root
    }

    pub fn into_device(self) -> (device: D)
        ensures
            device == self.device,
    {
        self.device
    }
}

/// Reads the body of a manifest.
pub(crate) fn read_body<D: BlockDevice>(device: &mut D, index: &Table<ObjectId, Entry>, id: &ObjectId) -> (r:
    Result<Vec<u8>, Error>)
    requires
        old(device).wf(),
    ensures
        untouched(*old(device), *final(device)),
        faulted(r, old(device).reliable()) || match body_of(index@, old(device).contents(), *id) {
            Err(error) => r == Err::<Vec<u8>, Error>(error),
            Ok(body) => r is Ok && r->Ok_0@ == body && body.len() <= MAX_PAYLOAD - 32,
        },
{
    let entry = match index.get(id) {
        Some(entry) => *entry,
        None => {
            return Err(Error::NotFound(*id));
        },
    };
    if entry.kind != Kind::Manifest {
        return Err(Error::WrongObjectKind("manifest"));
    }
    let (header, payload) = match read_record(device, entry.offset) {
        Ok(found) => found,
        Err(error) => {
            return Err(error);
        },
    };
    if payload.len() < 48 {
        return Err(Error::Corruption("manifest hash"));
    }
    let rest = vstd::slice::slice_subrange(payload.as_slice(), 32, payload.len());
    let own = manifest_id(rest);
    proof {
        assert(payload@.subrange(32, payload@.len() as int) =~= payload@.skip(32));
    }
    if !same_id(&own, id) {
        return Err(Error::Corruption("manifest hash"));
    }
    let mut body: Vec<u8> = Vec::new();
    push_all(&mut body, rest);
    proof {
        assert(body@ =~= payload@.skip(32));
    }
    Ok(body)
}

/// Checks a reference to a chunk.
pub(crate) fn check_chunk<D: BlockDevice>(
    device: &mut D,
    index: &Table<ObjectId, Entry>,
    chunk: &ChunkRef,
) -> (r: Result<(), Error>)
    requires
        old(device).wf(),
    ensures
        untouched(*old(device), *final(device)),
        faulted(r, old(device).reliable()) || match chunk_problem(
            index@,
            old(device).contents(),
            *chunk,
        ) {
            Some(error) => r == Err::<(), Error>(error),
            None => r is Ok,
        },
{
    let entry = match index.get(&chunk.id) {
        Some(entry) => *entry,
        None => {
            return Err(Error::NotFound(chunk.id));
        },
    };
    if entry.kind != Kind::Chunk {
        return Err(Error::Corruption("manifest kind"));
    }
    let (header, payload) = match read_record(device, entry.offset) {
        Ok(found) => found,
        Err(error) => {
            return Err(error);
        },
    };
    if payload.len() < 32 || payload.len() - 32 != chunk.len as usize {
        return Err(Error::Corruption("manifest chunk"));
    }
    let front = id_at(payload.as_slice(), 0);
    let own = chunk_id(vstd::slice::slice_subrange(payload.as_slice(), 32, payload.len()));
    proof {
        assert(payload@.subrange(0, 32) =~= payload@.take(32));
        assert(payload@.subrange(32, payload@.len() as int) =~= payload@.skip(32));
    }
    if !same_id(&front, &chunk.id) || !same_id(&own, &chunk.id) {
        return Err(Error::Corruption("manifest chunk"));
    }
    Ok(())
}

/// Reads a manifest and checks its references.
pub(crate) fn read_refs<D: BlockDevice>(device: &mut D, index: &Table<ObjectId, Entry>, id: &ObjectId) -> (r:
    Result<(u64, Vec<ChunkRef>), Error>)
    requires
        old(device).wf(),
    ensures
        untouched(*old(device), *final(device)),
        faulted(r, old(device).reliable()) || match manifest_of(
            index@,
            old(device).contents(),
            *id,
        ) {
            Err(error) => r == Err::<(u64, Vec<ChunkRef>), Error>(error),
            Ok((total, chunks)) => r is Ok && r->Ok_0.0 == total && r->Ok_0.1@ == chunks
                && chunks.len() <= MAX_MANIFEST_CHUNKS,
        },
{
    let ghost c = device.contents();
    let ghost first = *device;
    let body = match read_body(device, index, id) {
        Ok(body) => body,
        Err(error) => {
            return Err(error);
        },
    };
    let (count, total) = match manifest_layout(body.as_slice()) {
        Ok(layout) => layout,
        Err(error) => {
            return Err(error);
        },
    };
    let ghost refs = refs_of(body@, count as nat);
    let ghost find = |i: int| chunk_problem(index@, c, refs[i]);
    let mut chunks: Vec<ChunkRef> = Vec::new();
    let mut i: usize = 0;
    while i < count
        invariant
            untouched(first, *device),
            first == *old(device),
            c == device.contents(),
            i <= count,
            body@.len() == 16 + 36 * count,
            body@.len() <= MAX_PAYLOAD - 32,
            refs == refs_of(body@, count as nat),
            find == (|i: int| chunk_problem(index@, c, refs[i])),
            body_of(index@, c, *id) == Ok::<Seq<u8>, Error>(body@),
            layout_of(body@) == Ok::<(nat, u64), Error>((count as nat, total)),
            chunks@ =~= refs.take(i as int),
            forall|j: int| 0 <= j < i ==> #[trigger] find(j) is None,
        decreases count - i,
    {
        let chunk = manifest_ref(body.as_slice(), i);
        match check_chunk(device, index, &chunk) {
            Ok(_) => {},
            Err(error) => {
                proof {
                    if !faulted(Err::<(), Error>(error), device.reliable()) {
                        assert(find(i as int) == Some(error));
                        lemma_first_at(find, 0, i as int, refs.len() as int);
                    }
                }
                return Err(error);
            },
        }
        chunks.push(chunk);
        proof {
            assert(find(i as int) is None);
        }
        i = i + 1;
    }
    proof {
        lemma_first_clear(find, 0, refs.len() as int);
        assert(refs.take(i as int) =~= refs);
    }
    Ok((total, chunks))
}

/// The length of an object of the given chunks.
pub(crate) fn sum_of(chunks: &[ChunkRef]) -> (total: u64)
    requires
        chunks@.len() <= MAX_MANIFEST_CHUNKS,
    ensures
        total == total_len(chunks@),
{
    let mut total: u64 = 0;
    let mut i: usize = 0;
    proof {
        assert(chunks@.take(0) =~= Seq::empty());
    }
    while i < chunks.len()
        invariant
            i <= chunks@.len(),
            chunks@.len() <= MAX_MANIFEST_CHUNKS,
            total == total_len(chunks@.take(i as int)),
        decreases chunks@.len() - i,
    {
        proof {
            lemma_total_bound(chunks@.take(i as int));
            assert(chunks@.take(i + 1).drop_last() =~= chunks@.take(i as int));
        }
        total = total + chunks[i].len as u64;
        i = i + 1;
    }
    proof {
        assert(chunks@.take(i as int) =~= chunks@);
    }
    total
}

/// Checks whether a manifest can be committed.
pub(crate) fn check_manifest<D: BlockDevice>(
    device: &mut D,
    index: &Table<ObjectId, Entry>,
    id: &ObjectId,
) -> (r: Result<(), Error>)
    requires
        old(device).wf(),
    ensures
        untouched(*old(device), *final(device)),
        faulted(r, old(device).reliable()) || match manifest_problem(
            index@,
            old(device).contents(),
            *id,
        ) {
            Some(error) => r == Err::<(), Error>(error),
            None => r is Ok,
        },
{
    match read_refs(device, index, id) {
        Ok((total, chunks)) => {
            if sum_of(chunks.as_slice()) != total {
                return Err(Error::Corruption("manifest total mismatch"));
            }
            Ok(())
        },
        Err(error) => Err(error),
    }
}

/// Reads a chunk.
pub(crate) fn read_chunk<D: BlockDevice>(device: &mut D, index: &Table<ObjectId, Entry>, id: &ObjectId) -> (r:
    Result<Vec<u8>, Error>)
    requires
        old(device).wf(),
    ensures
        untouched(*old(device), *final(device)),
        faulted(r, old(device).reliable()) || match chunk_bytes(
            index@,
            old(device).contents(),
            *id,
        ) {
            Err(error) => r == Err::<Vec<u8>, Error>(error),
            Ok(bytes) => r is Ok && r->Ok_0@ == bytes,
        },
{
    let entry = match index.get(id) {
        Some(entry) => *entry,
        None => {
            return Err(Error::NotFound(*id));
        },
    };
    if entry.kind != Kind::Chunk || entry.len < 32 {
        return Err(Error::Corruption("invalid chunk entry"));
    }
    let (header, payload) = match read_record(device, entry.offset) {
        Ok(found) => found,
        Err(error) => {
            return Err(error);
        },
    };
    if payload.len() < 32 {
        return Err(Error::Corruption("chunk hash"));
    }
    let front = id_at(payload.as_slice(), 0);
    let rest = vstd::slice::slice_subrange(payload.as_slice(), 32, payload.len());
    let own = chunk_id(rest);
    proof {
        assert(payload@.subrange(0, 32) =~= payload@.take(32));
        assert(payload@.subrange(32, payload@.len() as int) =~= payload@.skip(32));
    }
    if !same_id(&front, id) || !same_id(&own, id) {
        return Err(Error::Corruption("chunk hash"));
    }
    let mut data: Vec<u8> = Vec::new();
    push_all(&mut data, rest);
    proof {
        assert(data@ =~= payload@.skip(32));
    }
    Ok(data)
}

} // verus!
