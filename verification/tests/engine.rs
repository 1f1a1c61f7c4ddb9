//! The object engine.
use cairn::device::script::{
    DeviceEffect, DeviceEventKind, DeviceRule, DeviceScript, EventOccurrence, EventSelector,
};
use cairn::device::sim::SimDisk;
use cairn::engine::format::{chunk_id, ChunkRef, Error, Root, MAX_MANIFEST_CHUNKS};
use cairn::engine::store::Store;

fn disk() -> SimDisk {
    SimDisk::new(256 * 1024)
}
#[test]
fn commit_reopen() {
    let mut s = Store::format(disk()).unwrap();
    let c = s.put_bytes(b"hello").unwrap();
    let m = s.put_manifest(&[ChunkRef { id: c, len: 5 }]).unwrap();
    s.commit_root(m, 1).unwrap();
    let mut r = Store::open(s.into_device()).unwrap();
    assert_eq!(
        r.current_root(),
        Some(Root {
            generation: 1,
            manifest: m
        })
    );
    assert_eq!(r.get_bytes(&c).unwrap(), b"hello")
}

#[test]
fn committed_root_reads_manifest_and_reassembles_object() {
    let mut store = Store::format(disk()).unwrap();
    let first = store.put_bytes(b"hello").unwrap();
    let second = store.put_bytes(b" world").unwrap();
    let manifest = store
        .put_manifest(&[
            ChunkRef { id: first, len: 5 },
            ChunkRef { id: second, len: 6 },
        ])
        .unwrap();
    store.commit_root(manifest, 1).unwrap();

    let object = store.get_manifest(&manifest).unwrap();
    assert_eq!(object.len, 11);
    assert_eq!(object.chunks.len(), 2);
    assert_eq!(store.read_root().unwrap(), Some(b"hello world".to_vec()));

    let mut reopened = Store::open(store.into_device()).unwrap();
    assert_eq!(reopened.read_root().unwrap(), Some(b"hello world".to_vec()));
}

#[test]
fn chunked_put_and_object_read_round_trip() {
    let data: Vec<u8> = (0..2500).map(|index| (index % 251) as u8).collect();
    let mut store = Store::format(disk()).unwrap();
    let manifest = store.put_object_with_chunk_size(&data, 1000).unwrap();
    let object = store.get_manifest(&manifest).unwrap();
    assert_eq!(object.chunks.len(), 3);
    assert_eq!(store.read_object(&manifest).unwrap(), data);
    store.commit_root(manifest, 1).unwrap();
    let mut reopened = Store::open(store.into_device()).unwrap();
    assert_eq!(reopened.read_root().unwrap(), Some(data));
}

#[test]
fn chunked_put_rejects_zero_chunk_size_before_writing() {
    let mut store = Store::format(disk()).unwrap();
    assert!(matches!(
        store.put_object_with_chunk_size(b"data", 0),
        Err(Error::InvalidInput("chunk size must be non-zero"))
    ));
    assert_eq!(store.put_object(b"data").unwrap().len(), 32);
}

#[test]
fn chunked_put_rejects_unencodable_manifest_before_writing() {
    let mut store = Store::format(disk()).unwrap();
    let before = store.append_offset;
    let data = vec![0u8; MAX_MANIFEST_CHUNKS + 1];
    assert!(matches!(
        store.put_object_with_chunk_size(&data, 1),
        Err(Error::InvalidInput("manifest too large"))
    ));
    assert_eq!(store.append_offset, before);
}

#[test]
fn chunked_put_rejects_capacity_before_writing_and_remains_usable() {
    let mut store = Store::format(SimDisk::new(16 * 1024)).unwrap();
    let before = store.append_offset;
    let data: Vec<u8> = (0..12 * 1024).map(|index| (index / 4096) as u8).collect();
    assert!(matches!(
        store.put_object_with_chunk_size(&data, 4 * 1024),
        Err(Error::Capacity)
    ));
    assert_eq!(store.append_offset, before);
    assert!(!store.requires_recovery);
    let manifest = store.put_object(b"ok").unwrap();
    assert_eq!(store.read_object(&manifest).unwrap(), b"ok");
}

#[test]
fn read_object_rejects_a_chunk_id_as_the_wrong_object_kind() {
    let mut store = Store::format(disk()).unwrap();
    let chunk = store.put_bytes(b"chunk").unwrap();
    assert!(matches!(
        store.read_object(&chunk),
        Err(Error::WrongObjectKind("manifest"))
    ));
}

#[test]
fn repeated_object_put_deduplicates_the_manifest_record() {
    let mut store = Store::format(SimDisk::new(16 * 1024)).unwrap();
    let data = vec![0x5a; 4096];
    let first = store.put_object(&data).unwrap();
    store.put_bytes(&vec![0xa5; 3800]).unwrap();
    let end = store.append_offset;
    assert_eq!(store.put_object(&data).unwrap(), first);
    assert_eq!(store.append_offset, end);
}

#[test]
fn chunked_put_preserves_requires_recovery_before_validating_inputs() {
    let disk = SimDisk::from_script(
        256 * 1024,
        DeviceScript {
            rules: vec![DeviceRule {
                selector: EventSelector {
                    kind: DeviceEventKind::Write,
                    occurrence: EventOccurrence::Exact(3),
                    range: None,
                },
                effect: DeviceEffect::CrashBefore,
            }],
            ..Default::default()
        },
    )
    .unwrap();
    let mut store = Store::format(disk).unwrap();
    assert!(store.put_bytes(b"poison").is_err());
    assert!(matches!(
        store.put_object_with_chunk_size(b"data", 0),
        Err(Error::RequiresRecovery)
    ));
}

#[test]
fn deduplication_does_not_trust_a_corrupted_index_entry() {
    let mut store = Store::format(disk()).unwrap();
    let chunk = store.put_bytes(b"chunk").unwrap();
    let manifest = store
        .put_manifest(&[ChunkRef { id: chunk, len: 5 }])
        .unwrap();
    store.commit_root(manifest, 1).unwrap();
    let other = store.put_manifest(&[]).unwrap();
    store.commit_root(other, 2).unwrap();
    let other_entry = *store.index.get(&other).unwrap();
    store.index.insert(manifest, other_entry);
    assert!(matches!(
        store.put_manifest(&[ChunkRef { id: chunk, len: 5 }]),
        Err(Error::Corruption("manifest hash"))
    ));
}

#[test]
fn direct_capacity_rejections_do_not_poison_the_store() {
    let mut store = Store::format(SimDisk::new(16 * 1024)).unwrap();
    let full_chunk = vec![0x7f; 8050];
    store.put_bytes(&full_chunk).unwrap();
    assert!(matches!(store.put_manifest(&[]), Err(Error::Capacity)));
    assert!(!store.requires_recovery);
    store.put_bytes(b"x").unwrap();

    let mut store = Store::format(SimDisk::new(16 * 1024)).unwrap();
    let chunk = store.put_bytes(b"root").unwrap();
    let manifest = store
        .put_manifest(&[ChunkRef { id: chunk, len: 4 }])
        .unwrap();
    store.put_bytes(&vec![0x23; 7900]).unwrap();
    assert!(matches!(
        store.commit_root(manifest, 1),
        Err(Error::Capacity)
    ));
    assert!(!store.requires_recovery);
}

#[test]
fn chunked_put_boundary_matrix_round_trips() {
    for chunk_size in [1usize, 2, 3, 7, 16, 1024] {
        for len in 0..=33usize {
            let data: Vec<u8> = (0..len)
                .map(|index| (index as u8).wrapping_mul(17))
                .collect();
            let mut store = Store::format(disk()).unwrap();
            let manifest = store.put_object_with_chunk_size(&data, chunk_size).unwrap();
            assert_eq!(store.read_object(&manifest).unwrap(), data);
        }
    }
}

#[test]
fn empty_committed_root_reads_as_empty_object() {
    let mut store = Store::format(disk()).unwrap();
    let manifest = store.put_manifest(&[]).unwrap();
    store.commit_root(manifest, 1).unwrap();
    assert_eq!(store.get_manifest(&manifest).unwrap().len, 0);
    assert_eq!(store.read_root().unwrap(), Some(Vec::new()));
}

#[test]
fn multi_chunk_object_larger_than_record_limit_survives_reopen() {
    const CHUNK_SIZE: usize = 1024 * 1024;
    const CHUNK_COUNT: usize = 65;
    let mut store = Store::format(SimDisk::new(96 * 1024 * 1024)).unwrap();
    let mut chunks = Vec::with_capacity(CHUNK_COUNT);
    for index in 0..CHUNK_COUNT {
        let data = vec![u8::try_from(index).unwrap(); CHUNK_SIZE];
        let id = store.put_bytes(&data).unwrap();
        chunks.push(ChunkRef {
            id,
            len: CHUNK_SIZE as u32,
        });
    }
    let manifest = store.put_manifest(&chunks).unwrap();
    store.commit_root(manifest, 1).unwrap();

    let mut reopened = Store::open(store.into_device()).unwrap();
    let object = reopened.read_root().unwrap().unwrap();
    assert_eq!(object.len(), CHUNK_SIZE * CHUNK_COUNT);
    assert_eq!(object[0], 0);
    assert_eq!(object[CHUNK_SIZE], 1);
    assert_eq!(object.last(), Some(&64));
}
#[test]
fn chunk_is_not_manifest() {
    let mut s = Store::format(disk()).unwrap();
    let c = s.put_bytes(b"x").unwrap();
    assert!(matches!(s.commit_root(c, 1), Err(Error::NotFound(_))))
}

#[test]
fn generation_zero_is_reserved() {
    let mut s = Store::format(disk()).unwrap();
    let c = s.put_bytes(b"x").unwrap();
    let m = s.put_manifest(&[ChunkRef { id: c, len: 1 }]).unwrap();
    assert!(matches!(
        s.commit_root(m, 0),
        Err(Error::InvalidInput("root generation must be non-zero"))
    ));
}

#[test]
fn uncommitted_objects_are_not_visible_after_reopen() {
    let mut s = Store::format(disk()).unwrap();
    let c = s.put_bytes(b"uncommitted").unwrap();
    let mut disk = s.into_device();
    disk.power_loss();
    let mut reopened = Store::open(disk).unwrap();
    assert!(matches!(reopened.get_bytes(&c), Err(Error::NotFound(_))));
}

#[test]
fn contract_round_trip_matrix() {
    // Bounded property-style coverage without sockets, clocks, or external RNG.
    for case in 0..32u8 {
        let mut data = Vec::with_capacity(1 + usize::from(case) * 17);
        for i in 0..(1 + usize::from(case) * 17) {
            data.push(case.wrapping_mul(31).wrapping_add(i as u8));
        }
        let mut store = Store::format(disk()).unwrap();
        let id = store.put_bytes(&data).unwrap();
        assert_eq!(id, chunk_id(&data));
        let manifest = store
            .put_manifest(&[ChunkRef {
                id,
                len: u32::try_from(data.len()).unwrap(),
            }])
            .unwrap();
        let generation = u64::from(case) + 1;
        store.commit_root(manifest, generation).unwrap();
        let mut reopened = Store::open(store.into_device()).unwrap();
        assert_eq!(reopened.current_root().unwrap().generation, generation);
        assert_eq!(reopened.get_bytes(&id).unwrap(), data);
    }
}

#[test]
fn contract_append_failure_requires_recovery() {
    let mut store = Store::format(
        SimDisk::from_script(
            256 * 1024,
            DeviceScript {
                rules: vec![DeviceRule {
                    selector: EventSelector {
                        kind: DeviceEventKind::Write,
                        occurrence: EventOccurrence::Exact(3),
                        range: None,
                    },
                    effect: DeviceEffect::Fail,
                }],
                ..Default::default()
            },
        )
        .unwrap(),
    )
    .unwrap();
    assert!(matches!(
        store.put_bytes(b"first"),
        Err(Error::RequiresRecovery) | Err(Error::Device(_))
    ));
    assert!(matches!(
        store.put_bytes(b"second"),
        Err(Error::RequiresRecovery)
    ));
}
