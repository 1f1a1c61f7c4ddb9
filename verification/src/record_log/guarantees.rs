//! What the record log owes to its callers: what is stored, committed and read, and why not.
use vstd::prelude::*;

use crate::bytes::{
    le_bytes, le_value, lemma_le_bytes_len, lemma_le_roundtrip, lemma_pow256_values, zeros,
};
use crate::device::block::BlockDevice;
use crate::engine::format::lemma_object_id;
use crate::hashing::blake3_digest;
use crate::record_log::format::{
    header_bytes, header_of, law_header_reads_back, lemma_checksum_fits, Error, ObjectId,
    RecordHeader, RecordKind, Root,
};
use crate::record_log::laws::law_record_reads_back;
use crate::record_log::store::{
    commit_right, empty_log, new_header, object_bytes, put_right, record_at, scan, with_entry,
    LogView, Store,
};

verus! {

/// Bytes of up to sixty-four mebibytes, less the thirty-two of their identifier, are stored on
/// a device that can be relied on where they fit: under the digest of the bytes, at the end of
/// the log, which moves on to the next multiple of eight. Reading them gives them back.
pub proof fn law_bytes_with_room_are_stored<D: BlockDevice>(
    before: Store<D>,
    after: Store<D>,
    data: Seq<u8>,
    r: Result<ObjectId, Error>,
)
    requires
        put_right(before, after, data, r),
        before.device.reliable(),
        before.device.contents().len() <= 0xffff_ffff_ffff_ffff,
        !before@.index.dom().contains(blake3_digest(data)),
        data.len() <= 67_108_832,
        before@.append_offset + 64 + data.len() <= before.device.contents().len(),
        before@.append_offset + 71 + data.len() <= 0xffff_ffff_ffff_ffff,
    ensures
        ({
            let id = blake3_digest(data);
            let at = before@.append_offset;
            &&& r == Ok::<ObjectId, Error>(id)
            &&& after@.index == before@.index.insert(id, at)
            &&& after@.root == before@.root
            &&& after@.append_offset % 8 == 0
            &&& at + 64 + data.len() <= after@.append_offset < at + 72 + data.len()
            &&& after.device.contents().len() == before.device.contents().len()
            &&& after.device.contents().take(at as int) == before.device.contents().take(at as int)
            &&& after.device.contents().subrange(at + 64, at + 64 + data.len()) == data
            &&& object_bytes(after@, after.device.contents(), id) == Ok::<Seq<u8>, Error>(data)
        }),
{
    let id = blake3_digest(data);
    let at = before@.append_offset;
    let payload = id@ + data;
    let c = before.device.contents();
    let d = after.device.contents();
    assert(payload.len() == 32 + data.len());
    assert(payload.take(32) =~= id@);
    assert(payload.skip(32) =~= data);
    lemma_object_id(id);
    law_record_reads_back(c, at as int, RecordKind::Chunk, payload, 0);
    lemma_checksum_fits(RecordKind::Chunk, 0, payload);
    let header = new_header(RecordKind::Chunk, payload, 0);
    law_header_reads_back(header);
    assert(d.subrange(at as int, at + 32) =~= header_bytes(header));
    assert(d.subrange(at + 32, at + 32 + payload.len()) =~= payload);
    assert(d.subrange(at + 64, at + 64 + data.len()) =~= data);
    assert(d.take(at as int) =~= c.take(at as int));
}

/// What is known is not stored twice, what is too large or does not fit is refused, and the log
/// stays as it is.
pub proof fn law_other_bytes_are_not_stored<D: BlockDevice>(
    before: Store<D>,
    after: Store<D>,
    data: Seq<u8>,
    r: Result<ObjectId, Error>,
)
    requires
        put_right(before, after, data, r),
        before.device.contents().len() <= 0xffff_ffff_ffff_ffff,
    ensures
        before@.index.dom().contains(blake3_digest(data)) ==> r == Ok::<ObjectId, Error>(
            blake3_digest(data),
        ) && after == before,
        !before@.index.dom().contains(blake3_digest(data)) && data.len() > 67_108_832 ==> r
            == Err::<ObjectId, Error>(Error::InvalidInput("payload too large")) && after@ == before@
            && after.device.contents() == before.device.contents(),
        !before@.index.dom().contains(blake3_digest(data)) && data.len() <= 67_108_832
            && before.device.contents().len() < before@.append_offset + 64 + data.len()
            && before@.append_offset + 64 + data.len() <= 0xffff_ffff_ffff_ffff ==> r == Err::<
            ObjectId,
            Error,
        >(Error::InvalidInput("device full")) && after@ == before@ && after.device.contents()
            == before.device.contents(),
{
    assert((blake3_digest(data)@ + data).len() == 32 + data.len());
}

/// A known manifest is committed under a larger generation on a device that can be relied on,
/// where the record fits.
pub proof fn law_known_manifests_are_committed<D: BlockDevice>(
    before: Store<D>,
    after: Store<D>,
    manifest: ObjectId,
    generation: u64,
    r: Result<Root, Error>,
)
    requires
        commit_right(before, after, manifest, generation, r),
        before.device.reliable(),
        before@.index.dom().contains(manifest),
        before@.root matches Some(root) ==> root.generation < generation,
        before@.append_offset + 72 <= before.device.contents().len(),
        before@.append_offset + 79 <= 0xffff_ffff_ffff_ffff,
        before.device.contents().len() <= 0xffff_ffff_ffff_ffff,
    ensures
        r == Ok::<Root, Error>(Root { generation, manifest }),
        after@.root == Some(Root { generation, manifest }),
        after@.index == before@.index,
        after@.append_offset % 8 == 0,
        before@.append_offset + 72 <= after@.append_offset < before@.append_offset + 80,
        after.device.contents().subrange(
            before@.append_offset + 32,
            before@.append_offset + 72,
        ) == manifest@ + le_bytes(generation as nat, 8),
{
    lemma_le_bytes_len(generation as nat, 8);
    let at = before@.append_offset as int;
    let payload = manifest@ + le_bytes(generation as nat, 8);
    assert(payload.len() == 40);
    law_record_reads_back(
        before.device.contents(),
        at,
        RecordKind::RootCommit,
        payload,
        generation,
    );
    let header = new_header(RecordKind::RootCommit, payload, generation);
    lemma_checksum_fits(RecordKind::RootCommit, generation, payload);
    law_header_reads_back(header);
    assert(after.device.contents().subrange(at + 32, at + 72) =~= payload);
}

/// A manifest that is not known, or a generation that is not larger, is not committed.
pub proof fn law_other_roots_are_not_committed<D: BlockDevice>(
    before: Store<D>,
    after: Store<D>,
    manifest: ObjectId,
    generation: u64,
    r: Result<Root, Error>,
)
    requires
        commit_right(before, after, manifest, generation, r),
    ensures
        !before@.index.dom().contains(manifest) ==> r == Err::<Root, Error>(
            Error::NotFound(manifest),
        ) && after@ == before@ && after.device.contents() == before.device.contents(),
        before@.index.dom().contains(manifest) && before@.root is Some && generation
            <= before@.root->0.generation ==> r == Err::<Root, Error>(
            Error::InvalidInput("root generation must increase"),
        ) && after@ == before@ && after.device.contents() == before.device.contents(),
{
}

/// An object is read from its record where the record is whole and holds its identifier; what
/// is not known is not found, and what does not match is not handed out.
pub proof fn law_objects_are_read(
    v: LogView,
    c: Seq<u8>,
    id: ObjectId,
    header: RecordHeader,
    data: Seq<u8>,
)
    ensures
        !v.index.dom().contains(id) ==> object_bytes(v, c, id) == Err::<Seq<u8>, Error>(
            Error::NotFound(id),
        ),
        v.index.dom().contains(id) && v.index[id] + 64 + data.len() <= c.len()
            <= 0xffff_ffff_ffff_ffff && header_of(
            c.subrange(v.index[id] as int, v.index[id] + 32),
        ) == Ok::<RecordHeader, Error>(header) && header.payload_len == 32 + data.len()
            && c.subrange(v.index[id] + 32, v.index[id] + 64 + data.len()) == id@ + data
            && header.checksum == le_value(
            blake3_digest(
                le_bytes(0x4341_4952, 4) + le_bytes(1, 2) + le_bytes(
                    match header.kind {
                        RecordKind::Chunk => 1,
                        RecordKind::Manifest => 2,
                        RecordKind::RootCommit => 4,
                    },
                    2,
                ) + le_bytes(32 + data.len(), 4) + le_bytes(header.generation as nat, 8) + zeros(12)
                    + (id@ + data),
            )@.take(8),
        ) ==> object_bytes(v, c, id) == Ok::<Seq<u8>, Error>(data),
{
    assert((id@ + data).take(32) =~= id@);
    assert((id@ + data).skip(32) =~= data);
    assert((id@ + data).len() == 32 + data.len());
}

/// What a scan makes of a record: an object is known at its place, a root replaces one of a
/// smaller generation, and a record that is neither is damage.
pub proof fn law_records_are_taken_up(
    v: LogView,
    at: u64,
    id: ObjectId,
    data: Seq<u8>,
    generation: u64,
)
    ensures
        with_entry(v, at, RecordKind::Chunk, id@ + data) == Ok::<LogView, Error>(
            LogView { index: v.index.insert(id, at), ..v },
        ),
        with_entry(v, at, RecordKind::Manifest, id@ + data) == Ok::<LogView, Error>(
            LogView { index: v.index.insert(id, at), ..v },
        ),
        with_entry(v, at, RecordKind::RootCommit, id@ + le_bytes(generation as nat, 8)) == Ok::<
            LogView,
            Error,
        >(
            if v.root is Some && generation <= v.root->0.generation {
                v
            } else {
                LogView { root: Some(Root { generation, manifest: id }), ..v }
            },
        ),
        data.len() < 32 ==> with_entry(v, at, RecordKind::Chunk, data) is Err && with_entry(
            v,
            at,
            RecordKind::Manifest,
            data,
        ) is Err,
        data.len() != 40 ==> with_entry(v, at, RecordKind::RootCommit, data) is Err,
{
    lemma_le_bytes_len(generation as nat, 8);
    lemma_pow256_values();
    lemma_le_roundtrip(generation as nat, 8);
    lemma_object_id(id);
    assert((id@ + data).take(32) =~= id@);
    let root = id@ + le_bytes(generation as nat, 8);
    assert(root.take(32) =~= id@);
    assert(root.subrange(32, 40) =~= le_bytes(generation as nat, 8));
}

/// A scan ends where nothing follows, goes on behind a record that is whole, and stops with the
/// damage at one that is not.
pub proof fn law_scans_go_on(
    c: Seq<u8>,
    at: int,
    v: LogView,
    header: RecordHeader,
    payload: Seq<u8>,
)
    requires
        0 <= at,
        c.len() <= 0xffff_ffff_ffff_ffff,
    ensures
        at + 32 > c.len() && at <= 0xffff_ffff_ffff_ffff ==> scan(c, at, v) == Ok::<LogView, Error>(
            LogView { append_offset: at as u64, ..v },
        ),
        at + 32 <= c.len() && c.subrange(at, at + 32) == zeros(32) ==> scan(c, at, v) == Ok::<
            LogView,
            Error,
        >(LogView { append_offset: at as u64, ..v }),
        at + 32 <= c.len() && c.subrange(at, at + 32) != zeros(32) && record_at(c, at) is Err
            ==> scan(c, at, v) is Err,
        at + 39 + payload.len() <= c.len() && c.subrange(at, at + 32) != zeros(32) && header.payload_len
            == payload.len() && record_at(c, at) == Ok::<(RecordHeader, Seq<u8>), Error>(
            (header, payload),
        ) && with_entry(v, at as u64, header.kind, payload) is Ok ==> scan(c, at, v) == scan(
            c,
            (at + 32 + payload.len() + 7) / 8 * 8,
            with_entry(v, at as u64, header.kind, payload)->Ok_0,
        ),
        empty_log().root is None,
        empty_log().append_offset == 0,
        empty_log().index == Map::<ObjectId, u64>::empty(),
{
}

/// How a header is written, and which are read.
pub proof fn law_headers(header: RecordHeader, bytes: Seq<u8>)
    ensures
        header_bytes(header) == le_bytes(0x4341_4952, 4) + le_bytes(1, 2) + le_bytes(
            match header.kind {
                RecordKind::Chunk => 1,
                RecordKind::Manifest => 2,
                RecordKind::RootCommit => 4,
            },
            2,
        ) + le_bytes(header.payload_len as nat, 4) + le_bytes(header.generation as nat, 8)
            + le_bytes(header.checksum as nat, 8) + zeros(4),
        bytes.len() == 32 ==> (header_of(bytes) is Ok <==> le_value(bytes.subrange(0, 4))
            == 0x4341_4952 && le_value(bytes.subrange(4, 6)) == 1 && le_value(bytes.subrange(8, 12))
            <= 67_108_864 && (le_value(bytes.subrange(6, 8)) == 1 || le_value(bytes.subrange(6, 8))
            == 2 || le_value(bytes.subrange(6, 8)) == 4)),
{
}

} // verus!
