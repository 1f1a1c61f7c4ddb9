//! The object model, and the engine beside it.
use cairn::device::sim::SimDisk;
use cairn::engine::format::{chunk_id, ChunkRef, ObjectId};
use cairn::engine::store::Store;
use cairn::model::objects::{Error, Model};

fn forged_id(byte: u8) -> ObjectId {
    [byte; 32]
}

#[test]
fn bounded_operation_matrix_preserves_invariants() {
    let first_bytes = b"hello".to_vec();
    let second_bytes = b"world!".to_vec();
    let mut model = Model::default();
    let first = chunk_id(&first_bytes);
    let second = chunk_id(&second_bytes);

    assert_eq!(
        model.put(forged_id(1), first_bytes.clone()),
        Err(Error::InvalidObjectId(forged_id(1)))
    );
    assert_eq!(model.put(first, first_bytes.clone()), Ok(()));
    assert_eq!(model.put(second, second_bytes.clone()), Ok(()));
    assert_eq!(
        model.put(first, b"different".to_vec()),
        Err(Error::InvalidObjectId(first))
    );

    let missing = forged_id(2);
    let existing_then_missing = model
        .put_manifest(&[
            ChunkRef {
                id: first,
                len: first_bytes.len() as u32,
            },
            ChunkRef {
                id: missing,
                len: 3,
            },
        ])
        .unwrap();
    assert_eq!(
        model.commit_root(existing_then_missing, 1),
        Err(Error::NotFound(missing))
    );

    let missing_then_existing = model
        .put_manifest(&[
            ChunkRef {
                id: missing,
                len: 3,
            },
            ChunkRef {
                id: second,
                len: second_bytes.len() as u32,
            },
        ])
        .unwrap();
    assert_eq!(
        model.commit_root(missing_then_existing, 1),
        Err(Error::NotFound(missing))
    );

    let manifest = model
        .put_manifest(&[
            ChunkRef {
                id: first,
                len: first_bytes.len() as u32,
            },
            ChunkRef {
                id: second,
                len: second_bytes.len() as u32,
            },
        ])
        .unwrap();
    assert_eq!(model.commit_root(manifest, 9).unwrap().generation, 9);
    assert_eq!(
        model.commit_root(manifest, 0),
        Err(Error::InvalidGeneration)
    );
    assert_eq!(
        model.commit_root(manifest, 9),
        Err(Error::InvalidGeneration)
    );
    assert_eq!(
        model.commit_root(manifest, 8),
        Err(Error::InvalidGeneration)
    );

    let next_manifest = model
        .put_manifest(&[ChunkRef {
            id: second,
            len: second_bytes.len() as u32,
        }])
        .unwrap();
    assert_eq!(model.commit_root(next_manifest, 42).unwrap().generation, 42);

    let pending_id = model.put_bytes(b"not committed".to_vec()).unwrap();
    let mut reopened = model.crash_reopen();
    assert_eq!(reopened.current_root(), model.current_root());
    assert_eq!(reopened.get(&first), Some(first_bytes.as_slice()));
    assert_eq!(reopened.get(&pending_id), None);
    assert_eq!(
        reopened.commit_root(pending_id, 43),
        Err(Error::NotFound(pending_id))
    );
}

#[test]
fn manifest_encoding_matches_core() {
    let first_bytes = b"core-first";
    let second_bytes = b"core-second";
    let first = chunk_id(first_bytes);
    let second = chunk_id(second_bytes);
    let chunks = [
        ChunkRef {
            id: first,
            len: first_bytes.len() as u32,
        },
        ChunkRef {
            id: second,
            len: second_bytes.len() as u32,
        },
    ];

    let disk = SimDisk::new(16 * 1024);
    let mut core = Store::format(disk).unwrap();
    assert_eq!(core.put_bytes(first_bytes).unwrap(), first);
    assert_eq!(core.put_bytes(second_bytes).unwrap(), second);
    let core_manifest = core
        .put_manifest(
            &chunks
                .iter()
                .map(|chunk| ChunkRef {
                    id: chunk.id,
                    len: chunk.len,
                })
                .collect::<Vec<_>>(),
        )
        .unwrap();

    let mut model = Model::default();
    model.put(first, first_bytes.to_vec()).unwrap();
    model.put(second, second_bytes.to_vec()).unwrap();
    let model_manifest = model.put_manifest(&chunks).unwrap();

    assert_eq!(model_manifest, core_manifest);
}
