//! Erasure coding.
use cairn::ec::codec::{
    EcError, EcProfile, ShardBuffer, DATA_SHARDS, TOTAL_SHARDS,
};
use cairn::ec::reed_solomon::ReedSolomon;

fn data() -> Vec<Vec<u8>> {
    (0..DATA_SHARDS)
        .map(|index| {
            (0..257)
                .map(|offset| (index as u8).wrapping_mul(19).wrapping_add(offset as u8))
                .collect()
        })
        .collect()
}

#[test]
fn profile_is_six_plus_four() {
    assert_eq!(ReedSolomon::new().profile(), EcProfile::six_plus_four());
}

#[test]
fn every_four_shard_erasure_pattern_recovers_data() {
    let codec = ReedSolomon::new();
    let original = data();
    let parity = codec.encode(&original).unwrap();
    let mut shards: Vec<Option<ShardBuffer>> = original
        .iter()
        .cloned()
        .map(|shard| Some(ShardBuffer::from_bytes(shard)))
        .chain(
            parity
                .iter()
                .cloned()
                .map(|shard| Some(ShardBuffer::from_bytes(shard))),
        )
        .collect();
    for mask in 0..(1u16 << TOTAL_SHARDS) {
        if mask.count_ones() != 4 {
            continue;
        }
        for (index, shard) in shards.iter_mut().enumerate() {
            *shard = if mask & (1 << index) == 0 {
                Some(ShardBuffer::from_bytes(if index < DATA_SHARDS {
                    original[index].clone()
                } else {
                    parity[index - DATA_SHARDS].clone()
                }))
            } else {
                None
            };
        }
        assert_eq!(codec.reconstruct(&shards).unwrap(), original);
    }
}

#[test]
fn five_missing_shards_are_not_recoverable() {
    let codec = ReedSolomon::new();
    let original = data();
    let parity = codec.encode(&original).unwrap();
    let mut shards: Vec<Option<ShardBuffer>> = original
        .into_iter()
        .map(|shard| Some(ShardBuffer::from_bytes(shard)))
        .chain(
            parity
                .into_iter()
                .map(|shard| Some(ShardBuffer::from_bytes(shard))),
        )
        .collect();
    for shard in shards.iter_mut().take(5) {
        *shard = None;
    }
    assert!(matches!(
        codec.reconstruct(&shards),
        Err(EcError::TooFewShards {
            available: 5,
            required: 6
        })
    ));
}

#[test]
fn invalid_checksum_shards_are_excluded_and_repair_returns_all_shards() {
    let codec = ReedSolomon::new();
    let original = data();
    let parity = codec.encode(&original).unwrap();
    let mut shards: Vec<Option<ShardBuffer>> = original
        .iter()
        .cloned()
        .chain(parity.iter().cloned())
        .enumerate()
        .map(|(index, bytes)| {
            let expected = if index < DATA_SHARDS {
                *blake3::hash(&original[index]).as_bytes()
            } else {
                *blake3::hash(&parity[index - DATA_SHARDS]).as_bytes()
            };
            Some(ShardBuffer::with_checksum(bytes, expected))
        })
        .collect();
    let corrupted = {
        let mut bytes = original[0].clone();
        bytes[0] ^= 1;
        ShardBuffer::with_checksum(bytes, *blake3::hash(&original[0]).as_bytes())
    };
    shards[0] = Some(corrupted);
    shards[1] = None;
    shards[2] = None;
    shards[3] = None;

    let recovered = codec.reconstruct_all(&shards).unwrap();
    assert_eq!(&recovered[..DATA_SHARDS], original.as_slice());
    assert_eq!(&recovered[DATA_SHARDS..], parity.as_slice());
}
