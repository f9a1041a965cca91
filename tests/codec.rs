use merkle_tree::{
    ChildKind, ChildRef, DeserializeErrorKind, ErrorContext, ExecutionMode, InternalNode, Key,
    LeafNode, Leb128Error, Manifest, Node, Root, RunServerArgs, TagParseError, TreeTags,
    ValueHash,
};

fn leaf(index: u64) -> LeafNode {
    LeafNode::new(Key::from_u64(513), ValueHash([4; 32]), index)
}

fn one_child_node() -> InternalNode {
    let mut node = InternalNode::new();
    node.insert_child_ref(5, ChildRef { hash: ValueHash([7; 32]), version: 300, is_leaf: true });
    node
}

fn manifest_bytes(manifest: &Manifest) -> Vec<u8> {
    let mut buffer = vec![];
    manifest.serialize(&mut buffer);
    buffer
}

fn tag_block(entries: &[(&str, &str)]) -> Vec<u8> {
    let mut bytes = vec![42, entries.len() as u8];
    for (key, value) in entries {
        bytes.push(key.len() as u8);
        bytes.extend_from_slice(key.as_bytes());
        bytes.push(value.len() as u8);
        bytes.extend_from_slice(value.as_bytes());
    }
    bytes
}

#[test]
fn key_from_u64_is_big_endian() {
    let key = Key::from_u64(0x0102_0304_0506_0708);
    assert_eq!(key.0[..24], [0; 24]);
    assert_eq!(key.0[24..], [1, 2, 3, 4, 5, 6, 7, 8]);
    assert_eq!(Key::from_big_endian(&key.0), key);
}

#[test]
fn leaf_index_uses_multi_byte_leb128() {
    let leaf = leaf(300);
    let mut buffer = vec![];
    leaf.serialize(&mut buffer);
    assert_eq!(buffer.len(), 66);
    assert_eq!(buffer[64..], [0xac, 0x02]);
    assert_eq!(LeafNode::deserialize(&buffer).unwrap(), leaf);
}

#[test]
fn leaf_accepts_trailing_bytes() {
    let leaf = leaf(42);
    let mut buffer = vec![];
    leaf.serialize(&mut buffer);
    buffer.extend_from_slice(&[0xff, 0xff, 0x00]);
    assert_eq!(LeafNode::deserialize(&buffer).unwrap(), leaf);
}

#[test]
fn leaf_truncations_are_rejected() {
    let leaf = leaf(300);
    let mut buffer = vec![];
    leaf.serialize(&mut buffer);
    for len in 0..buffer.len() {
        let err = LeafNode::deserialize(&buffer[..len]).unwrap_err();
        if len < 64 {
            assert_eq!(err.kind, DeserializeErrorKind::UnexpectedEof);
            assert_eq!(err.context, None);
        } else {
            assert_eq!(err.kind, DeserializeErrorKind::Leb128(Leb128Error::IoError));
            assert_eq!(err.context, Some(ErrorContext::LeafIndex));
        }
    }
}

#[test]
fn leaf_index_overflow_is_rejected() {
    let mut buffer = vec![0; 64];
    buffer.extend_from_slice(&[0xff; 9]);
    buffer.push(0x02);
    let err = LeafNode::deserialize(&buffer).unwrap_err();
    assert_eq!(err.kind, DeserializeErrorKind::Leb128(Leb128Error::Overflow));
    assert_eq!(
        err.to_string(),
        "failed deserializing leaf index: failed reading LEB128-encoded value: the integer does not fit in 64 bits"
    );
}

#[test]
fn leaf_index_of_u64_max_round_trips() {
    let leaf = leaf(u64::MAX);
    let mut buffer = vec![];
    leaf.serialize(&mut buffer);
    assert_eq!(buffer.len(), 74);
    assert_eq!(buffer[73], 0x01);
    assert_eq!(LeafNode::deserialize(&buffer).unwrap(), leaf);
}

#[test]
fn internal_node_truncations_are_rejected() {
    let mut node = InternalNode::new();
    node.insert_child_ref(0, ChildRef { hash: ValueHash([1; 32]), version: 200, is_leaf: false });
    node.insert_child_ref(15, ChildRef { hash: ValueHash([2; 32]), version: 1, is_leaf: true });
    let mut buffer = vec![];
    node.serialize(&mut buffer);
    assert_eq!(buffer.len(), 4 + 34 + 33);
    for len in 0..buffer.len() {
        let err = InternalNode::deserialize(&buffer[..len]).unwrap_err();
        assert!(
            matches!(err.kind, DeserializeErrorKind::UnexpectedEof | DeserializeErrorKind::Leb128(_)),
            "{len}: {err:?}"
        );
    }
    assert_eq!(
        InternalNode::deserialize(&buffer[..3]).unwrap_err().context,
        Some(ErrorContext::ChildrenMask)
    );
    assert_eq!(
        InternalNode::deserialize(&buffer[..20]).unwrap_err().context,
        Some(ErrorContext::ChildRefHash)
    );
    assert_eq!(
        InternalNode::deserialize(&buffer[..37]).unwrap_err().context,
        Some(ErrorContext::Version)
    );
    assert_eq!(InternalNode::deserialize(&buffer).unwrap(), node);
}

#[test]
fn internal_node_bitmap_and_child_count() {
    let node = one_child_node();
    assert_eq!(node.child_count(), 1);
    let mut buffer = vec![];
    node.serialize(&mut buffer);
    // Slot 5 holds a leaf: kind 2 at bits 10 and 11.
    assert_eq!(buffer[..4], (2u32 << 10).to_le_bytes());
    let bitmap = u32::from_le_bytes([buffer[0], buffer[1], buffer[2], buffer[3]]);
    assert_eq!((bitmap >> 10) & 3, 2);
    assert_eq!(bitmap.count_ones(), 1);
    let copy = InternalNode::deserialize(&buffer).unwrap();
    assert_eq!(copy.child_ref(5).unwrap().version, 300);
    assert!(copy.child_ref(5).unwrap().is_leaf);
    assert!(copy.child_ref(4).is_none());
}

#[test]
fn empty_internal_node_is_rejected() {
    let err = InternalNode::deserialize(&[0, 0, 0, 0, 1, 2, 3]).unwrap_err();
    assert_eq!(err.kind, DeserializeErrorKind::EmptyInternalNode);
    assert_eq!(err.to_string(), "empty internal node");
}

#[test]
fn invalid_child_kind_is_rejected() {
    // Slot 0 holds `11`.
    let err = InternalNode::deserialize(&[3, 0, 0, 0]).unwrap_err();
    assert_eq!(err.kind, DeserializeErrorKind::InvalidChildKind);
    // Slot 0 holds an internal node, slot 1 `11`: the first child is read first.
    let mut bytes = vec![0b1101, 0, 0, 0];
    bytes.extend_from_slice(&[9; 32]);
    bytes.push(1);
    let err = InternalNode::deserialize(&bytes).unwrap_err();
    assert_eq!(err.kind, DeserializeErrorKind::InvalidChildKind);
    // Without the first child's bytes, the input ends first.
    let err = InternalNode::deserialize(&[0b1101, 0, 0, 0]).unwrap_err();
    assert_eq!(err.kind, DeserializeErrorKind::UnexpectedEof);
}

#[test]
fn child_kinds_from_bits() {
    assert_eq!(ChildKind::deserialize(0).unwrap(), ChildKind::Empty);
    assert_eq!(ChildKind::deserialize(1).unwrap(), ChildKind::Internal);
    assert_eq!(ChildKind::deserialize(2).unwrap(), ChildKind::Leaf);
    assert_eq!(
        ChildKind::deserialize(3).unwrap_err().kind,
        DeserializeErrorKind::InvalidChildKind
    );
    assert_eq!(ChildRef::leaf(1).kind(), ChildKind::Leaf);
    assert_eq!(ChildRef::internal(1).kind(), ChildKind::Internal);
    assert_eq!(ChildKind::Leaf.bits(), 2);
}

#[test]
fn node_serialization_has_no_tag() {
    let leaf = leaf(42);
    let mut from_node = vec![];
    Node::Leaf(leaf).serialize(&mut from_node);
    let mut from_leaf = vec![];
    leaf.serialize(&mut from_leaf);
    assert_eq!(from_node, from_leaf);
}

#[test]
fn root_with_one_leaf_stored_as_internal_node() {
    let root = Root::new(1, Node::Internal(one_child_node()));
    let mut buffer = vec![];
    root.serialize(&mut buffer);
    assert_eq!(buffer.len(), 1 + 4 + 32 + 2);
    assert_eq!(Root::deserialize(&buffer).unwrap(), root);
}

#[test]
fn root_with_one_leaf_prefers_the_leaf() {
    let root = Root::new(1, Node::Leaf(leaf(7)));
    let mut buffer = vec![];
    root.serialize(&mut buffer);
    assert_eq!(buffer.len(), 66);
    assert_eq!(Root::deserialize(&buffer).unwrap(), root);
}

#[test]
fn root_leaf_count_errors() {
    let err = Root::deserialize(&[]).unwrap_err();
    assert_eq!(err.kind, DeserializeErrorKind::Leb128(Leb128Error::IoError));
    assert_eq!(err.context, Some(ErrorContext::LeafCount));
    assert_eq!(
        err.to_string(),
        "failed deserializing root leaf count: failed reading LEB128-encoded value: input ended inside the integer"
    );
    // A non-canonical zero still reads as an empty tree.
    assert_eq!(Root::deserialize(&[0x80, 0x00]).unwrap(), Root::Empty);
    // Bytes after an empty root are ignored.
    assert_eq!(Root::deserialize(&[0x00, 0x12]).unwrap(), Root::Empty);
}

#[test]
fn root_with_many_leaves_requires_internal_node() {
    let mut buffer = vec![];
    Root::new(5, Node::Leaf(leaf(1))).serialize(&mut buffer);
    // The key's first bytes are zero, which reads as an empty bitmap.
    let err = Root::deserialize(&buffer).unwrap_err();
    assert_eq!(err.kind, DeserializeErrorKind::EmptyInternalNode);
}

#[test]
fn manifest_with_recovery_flag_bytes() {
    let mut manifest = Manifest::new(42, "no_op256");
    manifest.tags.as_mut().unwrap().is_recovering = true;
    let mut expected = vec![0x2a, 0x04];
    expected.extend_from_slice(
        b"\x0carchitecture\x06AR16MT\x05depth\x03256\x06hasher\x08no_op256\x0dis_recovering\x04true",
    );
    assert_eq!(manifest_bytes(&manifest), expected);
}

#[test]
fn manifest_with_one_custom_tag_bytes() {
    let mut manifest = Manifest::new(42, "no_op256");
    manifest.tags.as_mut().unwrap().custom = vec![("test".to_owned(), "1".to_owned())];
    let bytes = manifest_bytes(&manifest);
    assert_eq!(bytes[1], 4);
    assert!(bytes.ends_with(b"\x0bcustom.test\x011"));
}

#[test]
fn manifest_without_tags() {
    let manifest = Manifest { version_count: 300, tags: None };
    let bytes = manifest_bytes(&manifest);
    assert_eq!(bytes, [0xac, 0x02]);
    assert_eq!(Manifest::deserialize(&bytes).unwrap(), manifest);
}

#[test]
fn manifest_tags_round_trip_with_unicode_and_large_depth() {
    let mut tags = TreeTags::new("blake2s256");
    tags.architecture = "ärchitektur ✓".to_owned();
    tags.depth = 1_234_567_890;
    tags.custom = vec![
        ("".to_owned(), "empty key".to_owned()),
        ("custom.nested".to_owned(), "".to_owned()),
        ("ключ".to_owned(), "значение".to_owned()),
    ];
    let manifest = Manifest { version_count: u64::MAX, tags: Some(tags) };
    let bytes = manifest_bytes(&manifest);
    assert_eq!(Manifest::deserialize(&bytes).unwrap(), manifest);
}

#[test]
fn renamed_reserved_tags_are_unknown() {
    let manifest = Manifest::new(42, "no_op256");
    let bytes = manifest_bytes(&manifest);
    // "depth" starts at byte 23: rename it to "Depth".
    let mut mangled = bytes.clone();
    assert_eq!(&mangled[23..28], b"depth");
    mangled[23] = b'D';
    let err = Manifest::deserialize(&mangled).unwrap_err();
    assert_eq!(err.kind, DeserializeErrorKind::UnknownTag("Depth".to_owned()));
    assert_eq!(err.to_string(), "unknown tag `Depth` in tree manifest");
}

#[test]
fn malformed_depth_is_rejected() {
    let cases: [(&str, TagParseError); 5] = [
        ("", TagParseError::Empty),
        ("+", TagParseError::InvalidDigit),
        ("12a", TagParseError::InvalidDigit),
        ("-1", TagParseError::InvalidDigit),
        ("99999999999999999999999", TagParseError::PosOverflow),
    ];
    for (depth, expected) in cases {
        let bytes = tag_block(&[("architecture", "AR16MT"), ("depth", depth), ("hasher", "h")]);
        let err = Manifest::deserialize(&bytes).unwrap_err();
        assert_eq!(
            err.kind,
            DeserializeErrorKind::MalformedTag { name: "depth", err: expected },
            "{depth}"
        );
    }
    let bytes = tag_block(&[("architecture", "AR16MT"), ("depth", "12a"), ("hasher", "h")]);
    assert_eq!(
        Manifest::deserialize(&bytes).unwrap_err().to_string(),
        "failed parsing tag `depth`: invalid digit found in string"
    );
}

#[test]
fn depth_with_plus_sign_is_accepted() {
    let bytes = tag_block(&[("architecture", "AR16MT"), ("depth", "+64"), ("hasher", "h")]);
    let manifest = Manifest::deserialize(&bytes).unwrap();
    assert_eq!(manifest.tags.unwrap().depth, 64);
}

#[test]
fn malformed_recovery_flag_is_rejected() {
    let bytes = tag_block(&[("is_recovering", "yes")]);
    let err = Manifest::deserialize(&bytes).unwrap_err();
    assert_eq!(
        err.kind,
        DeserializeErrorKind::MalformedTag { name: "is_recovering", err: TagParseError::InvalidBool }
    );
    let bytes = tag_block(&[
        ("is_recovering", "false"),
        ("architecture", "A"),
        ("depth", "1"),
        ("hasher", "h"),
    ]);
    assert!(!Manifest::deserialize(&bytes).unwrap().tags.unwrap().is_recovering);
}

#[test]
fn missing_tags_are_reported_in_order() {
    let err = Manifest::deserialize(&tag_block(&[("hasher", "h")])).unwrap_err();
    assert_eq!(err.kind, DeserializeErrorKind::MissingTag("architecture"));
    let err =
        Manifest::deserialize(&tag_block(&[("architecture", "A"), ("hasher", "h")])).unwrap_err();
    assert_eq!(err.kind, DeserializeErrorKind::MissingTag("depth"));
    assert_eq!(err.to_string(), "missing required tag `depth` in tree manifest");
}

#[test]
fn repeated_tags_keep_the_last_value() {
    let bytes = tag_block(&[
        ("architecture", "A"),
        ("custom.x", "1"),
        ("depth", "1"),
        ("custom.y", "2"),
        ("hasher", "h"),
        ("architecture", "B"),
        ("custom.x", "3"),
    ]);
    let tags = Manifest::deserialize(&bytes).unwrap().tags.unwrap();
    assert_eq!(tags.architecture, "B");
    assert_eq!(
        tags.custom,
        vec![("x".to_owned(), "3".to_owned()), ("y".to_owned(), "2".to_owned())]
    );
}

#[test]
fn invalid_utf8_tag_is_rejected() {
    let mut bytes = vec![42, 1, 2, 0xff, 0xfe, 0];
    let err = Manifest::deserialize(&bytes).unwrap_err();
    assert_eq!(err.kind, DeserializeErrorKind::Utf8);
    assert_eq!(err.to_string(), "failed decoding UTF-8 string");
    bytes[3] = b'o';
    bytes[4] = b'k';
    let err = Manifest::deserialize(&bytes).unwrap_err();
    assert_eq!(err.kind, DeserializeErrorKind::UnknownTag("ok".to_owned()));
}

#[test]
fn tag_length_past_the_end_is_rejected() {
    let err = Manifest::deserialize(&[42, 1, 5, b'a']).unwrap_err();
    assert_eq!(err.kind, DeserializeErrorKind::UnexpectedEof);
    let err = Manifest::deserialize(&[42, 1, 0x80]).unwrap_err();
    assert_eq!(err.kind, DeserializeErrorKind::Leb128(Leb128Error::IoError));
}

#[test]
fn run_server_args_settle_the_tag() {
    let args = |mode, tag: Option<&str>| RunServerArgs {
        mode,
        tag: tag.map(str::to_owned),
        components: Some(vec!["api".to_owned()]),
        genesis: true,
        additional_args: vec!["--x".to_owned()],
        uring: false,
    };
    let docker = args(ExecutionMode::Docker, Some("v1")).fill_values_with_prompt(Some("v2".to_owned()));
    assert_eq!(docker.tag.as_deref(), Some("v1"));
    assert_eq!(docker.components, Some(vec!["api".to_owned()]));
    assert!(docker.genesis);
    assert_eq!(docker.additional_args, vec!["--x".to_owned()]);
    let prompted = args(ExecutionMode::Docker, None).fill_values_with_prompt(Some("v2".to_owned()));
    assert_eq!(prompted.tag.as_deref(), Some("v2"));
    let latest = args(ExecutionMode::Docker, None).fill_values_with_prompt(None);
    assert_eq!(latest.tag.as_deref(), Some("latest"));
    let release = args(ExecutionMode::Release, Some("v1")).fill_values_with_prompt(Some("v2".to_owned()));
    assert_eq!(release.tag, None);
    assert_eq!(release.mode, ExecutionMode::Release);
    assert_eq!(ExecutionMode::default(), ExecutionMode::Release);
}
