//! Exact values of formulas and encodings.
use cairn::bytes::{push_le, read_le};
use cairn::catalog::ids::OperationId;
use cairn::catalog::names::{fingerprint, norm};
use cairn::catalog::node::{
    content_digest, decode_node, encode_node_payload, node_id, CommitNode, ContentNode, DagError,
    Node, NodeKind, RangeMapEntry, RangeMapNode, SnapshotNode, ZeroRunNode, MAX_CHILDREN,
    MAX_CONTENT_NODE_PAYLOAD, MAX_LOGICAL_FILE_SIZE,
};
use cairn::catalog::types::CatalogError;
use cairn::device::block::DeviceError;
use cairn::device::file::{begin_transfer, bounds, continue_transfer, Transfer};
use cairn::ec::codec::{generator_matrix, EcError, EcProfile, ShardBuffer};
use cairn::ec::field::{gf_inv, gf_mul, gf_pow};
use cairn::ec::matrix::invert;
use cairn::ec::reed_solomon::ReedSolomon;
use cairn::engine::format::{
    chunk_id, manifest_body, manifest_id, manifest_layout, manifest_ref, ChunkRef, Error, Header,
    Kind, Super,
};
use cairn::hashing::digest_bytes;
use cairn::record_log::format::{align, RecordHeader, RecordKind};

#[test]
fn digests_are_those_of_blake3() {
    assert_eq!(&digest_bytes(b"abc"), blake3::hash(b"abc").as_bytes());
    assert_eq!(
        &chunk_id(b"hello"),
        blake3::hash(b"cairn/chunk/v1\0hello").as_bytes()
    );
    assert_eq!(
        &manifest_id(b"body"),
        blake3::hash(b"cairn/manifest/v1\0body").as_bytes()
    );
    assert_eq!(
        &content_digest(b"x"),
        blake3::hash(b"cairn/logical-bytes/v1x").as_bytes()
    );
    let mut named = b"cairn/node/v3".to_vec();
    named.extend_from_slice(&NodeKind::ZeroRun.code().to_le_bytes());
    named.extend_from_slice(&8u64.to_le_bytes());
    named.extend_from_slice(&9u64.to_le_bytes());
    assert_eq!(
        &node_id(NodeKind::ZeroRun, &9u64.to_le_bytes()),
        blake3::hash(&named).as_bytes()
    );
}

#[test]
fn names_are_composed_and_checked() {
    assert_eq!(norm("e\u{301}"), Ok("\u{e9}".to_string()));
    assert_eq!(norm("plain"), Ok("plain".to_string()));
    assert_eq!(norm(""), Err(CatalogError::InvalidName));
    assert_eq!(norm("a/b"), Err(CatalogError::InvalidName));
    assert_ne!(
        fingerprint("d", &[1], &[b"a", b"bc"]),
        fingerprint("d", &[1], &[b"ab", b"c"])
    );
}

#[test]
fn numbers_are_little_endian() {
    let mut out = Vec::new();
    push_le(&mut out, 0x0102_0304, 4);
    assert_eq!(out, vec![4, 3, 2, 1]);
    assert_eq!(read_le(&out, 1, 2), 0x0203);
    assert_eq!(align(33).unwrap(), 40);
    assert_eq!(align(40).unwrap(), 40);
    assert!(align(u64::MAX).is_err());
}

#[test]
fn requests_on_files_are_bounded_and_carried_out_in_parts() {
    assert_eq!(bounds(4, 4, 8), Ok(()));
    assert_eq!(
        bounds(5, 4, 8),
        Err(DeviceError::OutOfBounds {
            offset: 5,
            len: 4,
            capacity: 8
        })
    );
    assert!(bounds(u64::MAX, 1, u64::MAX).is_err());
    assert_eq!(begin_transfer(10, 0), Transfer::Complete);
    assert_eq!(
        begin_transfer(10, 5),
        Transfer::Remaining {
            done: 0,
            offset: 10
        }
    );
    assert_eq!(
        continue_transfer(10, 5, 0, 3),
        Transfer::Remaining {
            done: 3,
            offset: 13
        }
    );
    assert_eq!(continue_transfer(10, 5, 3, 2), Transfer::Complete);
    assert_eq!(continue_transfer(10, 5, 3, 0), Transfer::Stalled);
}

#[test]
fn field_arithmetic_has_its_values() {
    assert_eq!(gf_mul(0x80, 2), 0x1d);
    assert_eq!(gf_mul(3, 7), 9);
    assert_eq!(gf_mul(0, 200), 0);
    assert_eq!(gf_pow(2, 8), 0x1d);
    assert_eq!(gf_pow(5, 0), 1);
    for value in 1..=255u8 {
        assert_eq!(gf_mul(value, gf_inv(value)), 1);
    }
}

#[test]
fn matrices_are_inverted_or_singular() {
    let identity = vec![vec![1, 0], vec![0, 1]];
    assert_eq!(invert(&identity).unwrap(), identity);
    let swap = vec![vec![0, 1], vec![1, 0]];
    assert_eq!(invert(&swap).unwrap(), swap);
    assert!(matches!(
        invert(&vec![vec![1, 1], vec![1, 1]]),
        Err(EcError::SingularMatrix)
    ));
    let generator = generator_matrix().unwrap();
    assert_eq!(generator.len(), 10);
    for (i, row) in generator.iter().take(6).enumerate() {
        for (j, entry) in row.iter().enumerate() {
            assert_eq!(*entry, u8::from(i == j));
        }
    }
}

#[test]
fn parity_is_the_polynomial_through_the_data() {
    // Data that lie on the polynomial x: shard i holds i + 1, and so does every parity.
    let codec = ReedSolomon::new();
    let data: Vec<Vec<u8>> = (1..=6u8).map(|value| vec![value]).collect();
    let parity = codec.encode(&data).unwrap();
    assert_eq!(parity, vec![vec![7], vec![8], vec![9], vec![10]]);
    // Data that lie on a constant.
    let same: Vec<Vec<u8>> = (0..6).map(|_| vec![0xa5, 0]).collect();
    assert_eq!(codec.encode(&same).unwrap(), vec![vec![0xa5, 0]; 4]);
}

#[test]
fn erasure_coding_reports_each_problem() {
    let codec = ReedSolomon::new();
    assert!(matches!(
        ReedSolomon::with_profile(EcProfile {
            data_shards: 5,
            ..EcProfile::six_plus_four()
        }),
        Err(EcError::UnsupportedProfile)
    ));
    assert!(matches!(
        codec.encode(&[vec![1]]),
        Err(EcError::InvalidShardCount {
            expected: 6,
            actual: 1
        })
    ));
    let mut uneven: Vec<Vec<u8>> = (0..6).map(|_| vec![1, 2]).collect();
    uneven[3] = vec![1];
    assert!(matches!(
        codec.encode(&uneven),
        Err(EcError::UnequalShardLengths)
    ));
    let mut shards: Vec<Option<ShardBuffer>> = (0..10).map(|_| None).collect();
    assert!(matches!(
        codec.reconstruct(&shards),
        Err(EcError::TooFewShards { .. }) | Err(EcError::EmptyShardSet)
    ));
    shards[0] = Some(ShardBuffer::from_bytes(vec![1]));
    assert!(matches!(
        codec.reconstruct(&shards),
        Err(EcError::TooFewShards {
            available: 1,
            required: 6
        })
    ));
    let wrong = ShardBuffer::with_checksum(vec![1], [0; 32]);
    assert!(!wrong.is_valid());
    assert!(ShardBuffer::from_bytes(vec![1]).is_valid());
}

#[test]
fn engine_headers_and_slots_read_back() {
    let header = Header {
        kind: Kind::Chunk,
        len: 5,
        generation: 7,
        checksum: 0x1122_3344_5566_7788,
    };
    let bytes = header.encode();
    assert_eq!(bytes.len(), 32);
    assert_eq!(Header::decode(&bytes).unwrap(), header);
    let mut damaged = bytes.clone();
    damaged[0] ^= 1;
    assert!(matches!(
        Header::decode(&damaged),
        Err(Error::Corruption(_))
    ));
    let slot = Super::empty();
    assert_eq!(Super::decode(&slot.encode()).unwrap(), slot);
    let mut damaged = slot.encode();
    damaged[20] ^= 1;
    assert!(Super::decode(&damaged).is_err());
}

#[test]
fn manifests_read_back() {
    let chunks = [
        ChunkRef {
            id: chunk_id(b"one"),
            len: 3,
        },
        ChunkRef {
            id: chunk_id(b"three"),
            len: 5,
        },
    ];
    let body = manifest_body(&chunks, 8);
    assert_eq!(body.len(), 16 + 2 * 36);
    assert_eq!(manifest_layout(&body), Ok((2, 8)));
    assert_eq!(manifest_ref(&body, 0), chunks[0]);
    assert_eq!(manifest_ref(&body, 1), chunks[1]);
    assert!(manifest_layout(&body[..body.len() - 1]).is_err());
}

#[test]
fn record_log_headers_read_back() {
    let header = RecordHeader {
        kind: RecordKind::of(1).unwrap(),
        payload_len: 4,
        generation: 2,
        checksum: 99,
    };
    let bytes = header.encode();
    assert_eq!(bytes.len(), 32);
    let found = RecordHeader::decode(&bytes).unwrap();
    assert_eq!(found.payload_len, 4);
    assert_eq!(found.generation, 2);
    assert_eq!(found.checksum, 99);
    assert!(RecordKind::of(77).is_err());
}

#[test]
fn nodes_read_back_and_encode_in_one_way() {
    let nodes = [
        Node::Content(ContentNode {
            bytes: b"abc".to_vec(),
        }),
        Node::ZeroRun(ZeroRunNode { len: 9 }),
        Node::RangeMap(RangeMapNode {
            level: 0,
            children: vec![RangeMapEntry {
                logical_start: 0,
                logical_len: 3,
                content_offset: 0,
                child_kind: NodeKind::Content,
                child: [1; 32],
            }],
        }),
        Node::Snapshot(SnapshotNode {
            logical_size: 3,
            range_map_root: [2; 32],
            content_digest: [3; 32],
        }),
        Node::Commit(CommitNode {
            snapshot: [4; 32],
            parent: Some([5; 32]),
        }),
    ];
    for node in nodes {
        let payload = encode_node_payload(&node).unwrap();
        assert_eq!(decode_node(node.kind(), &payload).unwrap(), node);
        let mut longer = payload.clone();
        longer.push(0);
        assert!(decode_node(node.kind(), &longer).map_or(true, |other| other != node));
    }
    assert!(matches!(
        NodeKind::from_code(77),
        Err(DagError::InvalidKind(77))
    ));
    assert!(matches!(
        encode_node_payload(&Node::ZeroRun(ZeroRunNode {
            len: MAX_LOGICAL_FILE_SIZE + 1
        })),
        Err(DagError::ResourceLimit("ZeroRun length"))
    ));
    assert!(encode_node_payload(&Node::Content(ContentNode {
        bytes: vec![0; MAX_CONTENT_NODE_PAYLOAD + 1],
    }))
    .is_err());
    let child = RangeMapEntry {
        logical_start: 0,
        logical_len: 1,
        content_offset: 0,
        child_kind: NodeKind::ZeroRun,
        child: [1; 32],
    };
    assert!(encode_node_payload(&Node::RangeMap(RangeMapNode {
        level: 0,
        children: vec![child; MAX_CHILDREN + 1],
    }))
    .is_err());
    assert_eq!(OperationId::from_raw(7).get(), 7);
}
