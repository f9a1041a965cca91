use merkle_tree::{ChildRef, InternalNode, Key, LeafNode, Manifest, Node, Root, ValueHash};

fn create_leaf() -> LeafNode {
    LeafNode::new(Key::from_u64(513), ValueHash([4; 32]), 42)
}

fn create_internal_node() -> InternalNode {
    let mut node = InternalNode::default();
    node.insert_child_ref(1, ChildRef { hash: ValueHash([1; 32]), ..ChildRef::internal(3) });
    node.insert_child_ref(0xb, ChildRef { hash: ValueHash([11; 32]), ..ChildRef::leaf(2) });
    node
}

#[test]
fn serializing_manifest_with_recovery_flag() {
    let mut manifest = Manifest::new(42, "no_op256");
    manifest.tags.as_mut().unwrap().is_recovering = true;
    let mut buffer = vec![];
    manifest.serialize(&mut buffer);
    assert_eq!(buffer[0], 42); // version count
    assert_eq!(buffer[1], 4); // number of tags
    assert_eq!(
        buffer[2..],
        *b"\x0Carchitecture\x06AR16MT\x05depth\x03256\x06hasher\x08no_op256\x0Dis_recovering\x04true"
    );

    let manifest_copy = Manifest::deserialize(&buffer).unwrap();
    assert_eq!(manifest_copy, manifest);
}

#[test]
fn serializing_manifest_with_custom_tags() {
    let mut manifest = Manifest::new(42, "no_op256");
    manifest.tags.as_mut().unwrap().custom = vec![("test".to_owned(), "1".to_owned())];
    let mut buffer = vec![];
    manifest.serialize(&mut buffer);
    assert_eq!(buffer[0], 42); // version count
    assert_eq!(buffer[1], 4); // number of tags (3 standard + 1 custom)
    assert_eq!(
        buffer[2..],
        *b"\x0Carchitecture\x06AR16MT\x05depth\x03256\x06hasher\x08no_op256\x0Bcustom.test\x011"
    );

    let manifest_copy = Manifest::deserialize(&buffer).unwrap();
    assert_eq!(manifest_copy, manifest);

    let tags = manifest.tags.as_mut().unwrap();
    tags.is_recovering = true;
    tags.custom = vec![
        ("test".to_owned(), "1".to_owned()),
        ("other.long.tag".to_owned(), "123456!!!".to_owned()),
    ];
    let mut buffer = vec![];
    manifest.serialize(&mut buffer);
    assert_eq!(buffer[0], 42); // version count
    assert_eq!(buffer[1], 6); // number of tags (4 standard + 2 custom)

    let manifest_copy = Manifest::deserialize(&buffer).unwrap();
    assert_eq!(manifest_copy, manifest);
}

#[test]
fn manifest_serialization_errors() {
    let manifest = Manifest::new(42, "no_op256");
    let mut buffer = vec![];
    manifest.serialize(&mut buffer);

    // Replace "architecture" -> "Architecture"
    let mut mangled_buffer = buffer.clone();
    mangled_buffer[3] = b'A';
    let err = Manifest::deserialize(&mangled_buffer).unwrap_err();
    let err = err.to_string();
    assert!(
        err.contains("unknown tag `Architecture` in tree manifest"),
        "{err}"
    );

    let mut mangled_buffer = buffer.clone();
    mangled_buffer.truncate(mangled_buffer.len() - 1);
    let err = Manifest::deserialize(&mangled_buffer).unwrap_err();
    let err = err.to_string();
    assert!(err.contains("unexpected end of input"), "{err}");

    // Remove the `hasher` tag.
    let mut mangled_buffer = buffer.clone();
    mangled_buffer[1] = 2; // decreased number of tags
    let err = Manifest::deserialize(&mangled_buffer).unwrap_err();
    let err = err.to_string();
    assert!(
        err.contains("missing required tag `hasher` in tree manifest"),
        "{err}"
    );
}

#[test]
fn serializing_leaf_node() {
    let leaf = create_leaf();
    let mut buffer = vec![];
    leaf.serialize(&mut buffer);
    assert_eq!(buffer[..30], [0; 30]); // padding for the key
    assert_eq!(buffer[30..32], [2, 1]); // lower 2 bytes of the key
    assert_eq!(buffer[32..64], [4; 32]); // value hash
    assert_eq!(buffer[64], 42); // leaf index
    assert_eq!(buffer.len(), 65);

    let leaf_copy = LeafNode::deserialize(&buffer).unwrap();
    assert_eq!(leaf_copy, leaf);
}

#[test]
fn serializing_internal_node() {
    let node = create_internal_node();
    let mut buffer = vec![];
    node.serialize(&mut buffer);
    assert_eq!(buffer[..4], [4, 0, 128, 0]);
    // ^ bitmap (`4 == ChildKind::Internal << 2`, `128 == ChildKind::Leaf << 6`).
    assert_eq!(buffer[4..36], [1; 32]); // hash of the child at 1
    assert_eq!(buffer[36], 3); // version of the child at 1
    assert_eq!(buffer[37..69], [11; 32]); // hash of the child at b
    assert_eq!(buffer[69], 2); // version of the child at b
    assert_eq!(buffer.len(), 70);

    // Check that the child count estimate works correctly.
    let bitmap = u32::from_le_bytes([4, 0, 128, 0]);
    let child_count = bitmap.count_ones();
    assert_eq!(child_count, 2);

    let node_copy = InternalNode::deserialize(&buffer).unwrap();
    assert_eq!(node_copy, node);
}

#[test]
fn serializing_empty_root() {
    let root = Root::Empty;
    let mut buffer = vec![];
    root.serialize(&mut buffer);
    assert_eq!(buffer, [0]);

    let root_copy = Root::deserialize(&buffer).unwrap();
    assert_eq!(root_copy, root);
}

#[test]
fn serializing_root_with_leaf() {
    let leaf = create_leaf();
    let root = Root::new(1, Node::Leaf(leaf));
    let mut buffer = vec![];
    root.serialize(&mut buffer);
    assert_eq!(buffer[0], 1);

    let root_copy = Root::deserialize(&buffer).unwrap();
    assert_eq!(root_copy, root);
}

#[test]
fn serializing_root_with_internal_node() {
    let node = create_internal_node();
    let root = Root::new(2, Node::Internal(node));
    let mut buffer = vec![];
    root.serialize(&mut buffer);
    assert_eq!(buffer[0], 2);

    let root_copy = Root::deserialize(&buffer).unwrap();
    assert_eq!(root_copy, root);
}
