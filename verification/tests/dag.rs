//! The commit graph.
use cairn::catalog::dag::Dag;
use cairn::catalog::model::ModelCatalog;
use cairn::catalog::ids::NodeId;
use cairn::catalog::node::{
    content_digest, decode_node, encode_node_payload, CommitNode, ContentNode, DagError, Node,
    NodeKind, RangeMapEntry, RangeMapNode, SnapshotNode, ZeroRunNode, MAX_LOGICAL_FILE_SIZE,
};

fn empty_commit(dag: &mut Dag) -> NodeId {
    let map = dag
        .insert(Node::RangeMap(RangeMapNode {
            level: 0,
            children: Vec::new(),
        }))
        .unwrap();
    let snapshot = dag
        .insert(Node::Snapshot(SnapshotNode {
            logical_size: 0,
            range_map_root: map,
            content_digest: content_digest(&[]),
        }))
        .unwrap();
    dag.insert(Node::Commit(CommitNode {
        snapshot,
        parent: None,
    }))
    .unwrap()
}

#[test]
fn operation_bindings_allow_content_addressed_commit_reuse() {
    let mut dag = Dag::new();
    let mut catalog = ModelCatalog::new();
    let first = empty_commit(&mut dag);
    let snapshot = match dag.get(&first).unwrap() {
        Node::Commit(commit) => commit.snapshot,
        _ => unreachable!(),
    };
    let second = dag
        .insert(Node::Commit(CommitNode {
            snapshot,
            parent: Some(first),
        }))
        .unwrap();
    let operation = catalog.allocate_operation_id().unwrap();
    assert!(dag.commit_operation(operation, first).is_ok());
    assert!(dag.commit_operation(operation, first).is_ok());
    assert!(matches!(
        dag.commit_operation(operation, second),
        Err(DagError::OperationConflict(_))
    ));
    let other_operation = catalog.allocate_operation_id().unwrap();
    assert!(dag.commit_operation(other_operation, first).is_ok());
}

#[test]
fn operation_binding_rejects_non_commit_and_missing_snapshot() {
    let mut dag = Dag::new();
    let mut catalog = ModelCatalog::new();
    let map = dag
        .insert(Node::RangeMap(RangeMapNode {
            level: 0,
            children: Vec::new(),
        }))
        .unwrap();
    assert!(matches!(
        dag.commit_operation(catalog.allocate_operation_id().unwrap(), map),
        Err(DagError::InvalidReference(_))
    ));
    let missing_snapshot = [9; 32];
    let commit = Node::Commit(CommitNode {
        snapshot: missing_snapshot,
        parent: None,
    });
    let commit_id = commit.id().unwrap();
    dag.nodes.insert(commit_id, commit);
    assert!(matches!(
        dag.commit_operation(catalog.allocate_operation_id().unwrap(), commit_id),
        Err(DagError::MissingNode(id)) if id == missing_snapshot
    ));
}

#[test]
fn operation_binding_survives_clone_reopen() {
    let mut dag = Dag::new();
    let mut catalog = ModelCatalog::new();
    let commit = empty_commit(&mut dag);
    let operation = catalog.allocate_operation_id().unwrap();
    let receipt = dag.commit_operation(operation, commit).unwrap();
    let reopened = dag.crash_reopen();
    assert_eq!(reopened.operation_binding(operation), Some(receipt));
}

#[test]
fn content_payload_vectors_are_canonical() {
    let empty = encode_node_payload(&Node::Content(ContentNode { bytes: Vec::new() })).unwrap();
    assert_eq!(empty, 0u64.to_le_bytes());
    let abc = encode_node_payload(&Node::Content(ContentNode {
        bytes: b"abc".to_vec(),
    }))
    .unwrap();
    assert_eq!(abc, b"\x03\0\0\0\0\0\0\0abc");
}

#[test]
fn empty_range_map_is_six_bytes() {
    let payload = encode_node_payload(&Node::RangeMap(RangeMapNode {
        level: 0,
        children: Vec::new(),
    }))
    .unwrap();
    assert_eq!(payload, b"\0\x01\0\0\0\0");
    assert_eq!(
        decode_node(NodeKind::RangeMap, &payload).unwrap(),
        Node::RangeMap(RangeMapNode {
            level: 0,
            children: Vec::new()
        })
    );
}

#[test]
fn invalid_encodings_are_rejected() {
    assert!(decode_node(NodeKind::Content, &[1, 0, 0, 0, 0, 0, 0, 0]).is_err());
    assert!(decode_node(NodeKind::RangeMap, b"\0\0\0\0\0\0").is_err());
    assert!(decode_node(NodeKind::RangeMap, b"\x01\0\0\0\0\0").is_err());
    assert!(decode_node(NodeKind::ZeroRun, &u64::MAX.to_le_bytes()).is_err());
    let mut commit = vec![0; 33];
    commit[32] = 2;
    assert!(decode_node(NodeKind::Commit, &commit).is_err());
    let bad = RangeMapNode {
        level: 0,
        children: vec![
            RangeMapEntry {
                logical_start: 0,
                logical_len: 1,
                content_offset: 0,
                child_kind: NodeKind::Content,
                child: [0; 32],
            },
            RangeMapEntry {
                logical_start: 2,
                logical_len: 1,
                content_offset: 0,
                child_kind: NodeKind::Content,
                child: [0; 32],
            },
        ],
    };
    assert!(encode_node_payload(&Node::RangeMap(bad)).is_err());
}

#[test]
fn snapshot_limits_are_checked_before_reconstruction() {
    let empty = Node::RangeMap(RangeMapNode {
        level: 0,
        children: Vec::new(),
    });
    let empty_id = empty.id().unwrap();
    let mut dag = Dag::new();
    dag.insert(empty).unwrap();
    let snapshot = SnapshotNode {
        logical_size: MAX_LOGICAL_FILE_SIZE + 1,
        range_map_root: empty_id,
        content_digest: content_digest(&[]),
    };
    assert!(matches!(
        dag.reconstruct(&snapshot),
        Err(DagError::ResourceLimit("Snapshot logical size"))
    ));
    let mut payload = [0u8; 72];
    payload[..8].copy_from_slice(&(MAX_LOGICAL_FILE_SIZE + 1).to_le_bytes());
    assert!(matches!(
        decode_node(NodeKind::Snapshot, &payload),
        Err(DagError::ResourceLimit("Snapshot logical size"))
    ));
}

#[test]
fn range_map_reconstructs_and_hashes_logical_bytes() {
    let content = Node::Content(ContentNode {
        bytes: b"hello".to_vec(),
    });
    let content_id = content.id().unwrap();
    let zeros = Node::ZeroRun(ZeroRunNode { len: 2 });
    let zeros_id = zeros.id().unwrap();
    let map = Node::RangeMap(RangeMapNode {
        level: 0,
        children: vec![
            RangeMapEntry {
                logical_start: 0,
                logical_len: 2,
                content_offset: 1,
                child_kind: NodeKind::Content,
                child: content_id,
            },
            RangeMapEntry {
                logical_start: 2,
                logical_len: 2,
                content_offset: 0,
                child_kind: NodeKind::ZeroRun,
                child: zeros_id,
            },
            RangeMapEntry {
                logical_start: 4,
                logical_len: 4,
                content_offset: 0,
                child_kind: NodeKind::Content,
                child: content_id,
            },
        ],
    });
    let map_id = map.id().unwrap();
    let bytes = b"el\0\0hell";
    let snapshot = SnapshotNode {
        logical_size: bytes.len() as u64,
        range_map_root: map_id,
        content_digest: content_digest(bytes),
    };
    let mut dag = Dag::new();
    dag.insert(content).unwrap();
    dag.insert(zeros).unwrap();
    dag.insert(map).unwrap();
    assert_eq!(dag.reconstruct(&snapshot).unwrap(), bytes);
}

#[test]
fn bounded_reconstruct_range_matches_full_reconstruction() {
    let content = Node::Content(ContentNode {
        bytes: b"0123456789abcdef".to_vec(),
    });
    let content_id = content.id().unwrap();
    let map = Node::RangeMap(RangeMapNode {
        level: 0,
        children: vec![RangeMapEntry {
            logical_start: 0,
            logical_len: 16,
            content_offset: 0,
            child_kind: NodeKind::Content,
            child: content_id,
        }],
    });
    let map_id = map.id().unwrap();
    let snapshot = Node::Snapshot(SnapshotNode {
        logical_size: 16,
        range_map_root: map_id,
        content_digest: content_digest(b"0123456789abcdef"),
    });
    let mut dag = Dag::new();
    dag.insert(content).unwrap();
    dag.insert(map).unwrap();
    let snapshot_id = dag.insert(snapshot).unwrap();
    let full = dag
        .reconstruct(match dag.get(&snapshot_id).unwrap() {
            Node::Snapshot(snapshot) => snapshot,
            _ => unreachable!(),
        })
        .unwrap();

    for start in 0..=16 {
        for end in start..=16 {
            let mut output = vec![0xa5; (end - start) as usize];
            assert_eq!(
                dag.reconstruct_range(snapshot_id, start..end, &mut output)
                    .unwrap(),
                (end - start) as usize
            );
            assert_eq!(output, full[start as usize..end as usize]);
        }
    }
}

#[test]
fn nested_range_map_preserves_snapshot_global_coordinates() {
    let content = Node::Content(ContentNode {
        bytes: b"abcdef".to_vec(),
    });
    let content_id = content.id().unwrap();
    let child = Node::RangeMap(RangeMapNode {
        level: 0,
        children: vec![RangeMapEntry {
            logical_start: 4,
            logical_len: 2,
            content_offset: 1,
            child_kind: NodeKind::Content,
            child: content_id,
        }],
    });
    let child_id = child.id().unwrap();
    let zeros = Node::ZeroRun(ZeroRunNode { len: 4 });
    let zeros_id = zeros.id().unwrap();
    let mut dag = Dag::new();
    dag.insert(content).unwrap();
    dag.insert(child).unwrap();
    // A level-one root may only contain RangeMaps; represent the leading
    // zeros with a level-zero RangeMap leaf.
    let zero_leaf = Node::RangeMap(RangeMapNode {
        level: 0,
        children: vec![RangeMapEntry {
            logical_start: 0,
            logical_len: 4,
            content_offset: 0,
            child_kind: NodeKind::ZeroRun,
            child: zeros_id,
        }],
    });
    let zero_leaf_id = zero_leaf.id().unwrap();
    let root = Node::RangeMap(RangeMapNode {
        level: 1,
        children: vec![
            RangeMapEntry {
                logical_start: 0,
                logical_len: 4,
                content_offset: 0,
                child_kind: NodeKind::RangeMap,
                child: zero_leaf_id,
            },
            RangeMapEntry {
                logical_start: 4,
                logical_len: 2,
                content_offset: 0,
                child_kind: NodeKind::RangeMap,
                child: child_id,
            },
        ],
    });
    let root_id = root.id().unwrap();
    dag.insert(zeros).unwrap();
    dag.insert(zero_leaf).unwrap();
    dag.insert(root).unwrap();
    let bytes = vec![0, 0, 0, 0, b'b', b'c'];
    let snapshot = SnapshotNode {
        logical_size: 6,
        range_map_root: root_id,
        content_digest: content_digest(&bytes),
    };
    assert_eq!(dag.reconstruct(&snapshot).unwrap(), bytes);
}

#[test]
fn commit_parent_flag_is_canonical() {
    let snapshot = [7; 32];
    let none = encode_node_payload(&Node::Commit(CommitNode {
        snapshot,
        parent: None,
    }))
    .unwrap();
    assert_eq!(none.len(), 33);
    assert_eq!(none[32], 0);
    let parent = encode_node_payload(&Node::Commit(CommitNode {
        snapshot,
        parent: Some([8; 32]),
    }))
    .unwrap();
    assert_eq!(parent.len(), 65);
    assert_eq!(parent[32], 1);
    assert!(decode_node(NodeKind::Commit, &[&snapshot[..], &[0], &[9]].concat()).is_err());
}
