//! Encoding and decoding of leaves, child references, internal nodes and roots.

use vstd::prelude::*;

use crate::errors::{
    error, DeserializeError, DeserializeErrorKind, ErrorContext, ErrorView, KindView,
};
use crate::layout::{
    bitmap_of, child_ref_bytes, children_bytes, internal_bytes, leaf_bytes, lemma_bitmap_bound,
    lemma_parse_slots_len, lemma_pow4_monotonic, lemma_pow4_sixteen, node_bytes, parse_child_ref,
    parse_internal, parse_leaf, parse_root, parse_slots, pow4, root_bytes, u32_from_le,
    u32_le_bytes, SlotsRead,
};
use crate::types::{
    kind_bits, ChildKind, ChildRef, ChildRefView, InternalNode, Key, LeafNode, LeafView, Node,
    Root, RootView, ValueHash, CHILD_COUNT, HASH_SIZE, KEY_SIZE,
};
use crate::varint::{read_leb128, write_leb128};

verus! {

/// Estimate of the size of a LEB128 integer, used to reserve buffer space: three bytes
/// hold values below `2^21`.
pub const LEB128_SIZE_ESTIMATE: usize = 3;

/// Estimate of the size of an encoded child reference.
pub const CHILD_REF_ESTIMATED_CAPACITY: usize = HASH_SIZE + LEB128_SIZE_ESTIMATE;

/// Appends `bytes` to `buffer`.
pub(crate) fn append_bytes(buffer: &mut Vec<u8>, bytes: &[u8])
    ensures
        final(buffer)@ == old(buffer)@ + bytes@,
{
    let mut i: usize = 0;
    while i < bytes.len()
        invariant
            i <= bytes@.len(),
            buffer@ == old(buffer)@ + bytes@.take(i as int),
        decreases bytes@.len() - i,
    {
        buffer.push(bytes[i]);
        i = i + 1;
        assert(buffer@ =~= old(buffer)@ + bytes@.take(i as int));
    }
    assert(bytes@.take(i as int) =~= bytes@);
}

impl LeafNode {
    /// Decodes a leaf from the front of `bytes`; bytes after the leaf index are ignored.
    pub fn deserialize(bytes: &[u8]) -> (r: Result<LeafNode, DeserializeError>)
        ensures
            match r {
                Ok(l) => parse_leaf(bytes@) == Ok::<LeafView, ErrorView>(l@),
                Err(e) => parse_leaf(bytes@) == Err::<LeafView, ErrorView>(e@),
            },
    {
        if bytes.len() < KEY_SIZE + HASH_SIZE {
            return Err(DeserializeErrorKind::UnexpectedEof.into_error());
        }
        let full_key = Key::from_big_endian(&bytes[0..KEY_SIZE]);
        let value_hash = ValueHash::from_slice(&bytes[KEY_SIZE..KEY_SIZE + HASH_SIZE]);
        let rest = &bytes[KEY_SIZE + HASH_SIZE..bytes.len()];
        assert(rest@ == bytes@.skip((KEY_SIZE + HASH_SIZE) as int));
        match read_leb128(rest) {
            Ok((leaf_index, _)) => Ok(LeafNode { full_key, value_hash, leaf_index }),
            Err(e) => Err(DeserializeErrorKind::Leb128(e).with_context(ErrorContext::LeafIndex)),
        }
    }

    /// Appends the encoding of this leaf to `buffer`.
    pub fn serialize(&self, buffer: &mut Vec<u8>)
        ensures
            final(buffer)@ == old(buffer)@ + leaf_bytes(self@),
    {
        buffer.reserve(KEY_SIZE + HASH_SIZE + LEB128_SIZE_ESTIMATE);
        append_bytes(buffer, self.full_key.0.as_slice());
        append_bytes(buffer, self.value_hash.0.as_slice());
        write_leb128(buffer, self.leaf_index);
        assert(final(buffer)@ =~= old(buffer)@ + leaf_bytes(self@));
    }
}

impl ChildKind {
    /// The kind that two bits of a bitmap stand for; `11` stands for none.
    pub fn deserialize(bitmap_chunk: u32) -> (r: Result<ChildKind, DeserializeError>)
        ensures
            bitmap_chunk < 3 ==> (r matches Ok(k) && kind_bits(k) == bitmap_chunk),
            bitmap_chunk >= 3 ==> (r matches Err(e) && e@ == error(KindView::InvalidChildKind)),
    {
        match bitmap_chunk {
            0 => Ok(ChildKind::Empty),
            1 => Ok(ChildKind::Internal),
            2 => Ok(ChildKind::Leaf),
            _ => Err(DeserializeErrorKind::InvalidChildKind.into_error()),
        }
    }
}

impl ChildRef {
    /// Decodes a child reference from the front of `buffer`, of the kind `is_leaf` that
    /// the parent's bitmap holds; on success also gives what follows it.
    pub fn deserialize(buffer: &[u8], is_leaf: bool) -> (r: Result<(ChildRef, &[u8]), DeserializeError>)
        ensures
            match parse_child_ref(buffer@, is_leaf) {
                Ok((c, rest)) => r matches Ok((x, tail)) && x@ == c && tail@ == rest,
                Err(e) => r matches Err(x) && x@ == e,
            },
    {
        if buffer.len() < HASH_SIZE {
            let err = DeserializeErrorKind::UnexpectedEof;
            return Err(err.with_context(ErrorContext::ChildRefHash));
        }
        let (hash, rest) = buffer.split_at(HASH_SIZE);
        let hash = ValueHash::from_slice(hash);
        match read_leb128(rest) {
            Ok((version, tail)) => Ok((ChildRef { hash, version, is_leaf }, tail)),
            Err(e) => Err(DeserializeErrorKind::Leb128(e).with_context(ErrorContext::Version)),
        }
    }

    /// Appends the hash and version of this reference to `buffer`.
    pub fn serialize(&self, buffer: &mut Vec<u8>)
        ensures
            final(buffer)@ == old(buffer)@ + child_ref_bytes(self@),
    {
        append_bytes(buffer, self.hash.0.as_slice());
        write_leb128(buffer, self.version);
        assert(final(buffer)@ =~= old(buffer)@ + child_ref_bytes(self@));
    }
}

impl InternalNode {
    /// Decodes an internal node from the front of `bytes`; bytes after its last child
    /// are ignored.
    pub fn deserialize(bytes: &[u8]) -> (r: Result<InternalNode, DeserializeError>)
        ensures
            match r {
                Ok(n) => parse_internal(bytes@) == Ok::<Seq<Option<ChildRefView>>, ErrorView>(n@),
                Err(e) => parse_internal(bytes@) == Err::<Seq<Option<ChildRefView>>, ErrorView>(e@),
            },
    {
        if bytes.len() < 4 {
            let err = DeserializeErrorKind::UnexpectedEof;
            return Err(err.with_context(ErrorContext::ChildrenMask));
        }
        let bitmap: u32 = bytes[0] as u32 + 256 * (bytes[1] as u32) + 65536 * (bytes[2] as u32)
            + 16777216 * (bytes[3] as u32);
        if bitmap == 0 {
            return Err(DeserializeErrorKind::EmptyInternalNode.into_error());
        }
        let ghost whole = parse_slots(bitmap as nat, CHILD_COUNT as nat, bytes@.skip(4));
        let mut rest: &[u8] = &bytes[4..bytes.len()];
        let mut bits: u32 = bitmap;
        let mut node = InternalNode::new();
        let mut i: u8 = 0;
        proof {
            lemma_parse_slots_len(bitmap as nat, CHILD_COUNT as nat, bytes@.skip(4));
            assert(rest@ =~= bytes@.skip(4));
            if let Ok((slots, tail)) = whole {
                assert(slots.skip(0) =~= slots);
                assert(node@.take(0) =~= slots.take(0));
            }
        }
        while (i as usize) < CHILD_COUNT
            invariant
                i <= CHILD_COUNT,
                bytes@.len() >= 4,
                u32_from_le(bytes@) == bitmap,
                bitmap != 0,
                node@.len() == CHILD_COUNT,
                forall|j: int| i <= j < CHILD_COUNT ==> node@[j] is None,
                whole == parse_slots(bitmap as nat, CHILD_COUNT as nat, bytes@.skip(4)),
                match whole {
                    Ok((slots, tail)) => {
                        &&& parse_slots(bits as nat, (CHILD_COUNT - i) as nat, rest@)
                            == Ok::<SlotsRead, ErrorView>((slots.skip(i as int), tail))
                        &&& node@.take(i as int) == slots.take(i as int)
                        &&& slots.len() == CHILD_COUNT
                    },
                    Err(e) => parse_slots(bits as nat, (CHILD_COUNT - i) as nat, rest@)
                        == Err::<SlotsRead, ErrorView>(e),
                },
            decreases CHILD_COUNT - i,
        {
            assert((bits & 3) == bits % 4 && (bits >> 2) == bits / 4) by (bit_vector);
            let ghost n = (CHILD_COUNT - i) as nat;
            let ghost old_bits = bits as nat;
            let kind = match ChildKind::deserialize(bits & 3) {
                Ok(kind) => kind,
                Err(e) => {
                    assert(parse_slots(bits as nat, n, rest@) == Err::<SlotsRead, ErrorView>(e@));
                    return Err(e);
                },
            };
            match kind {
                ChildKind::Empty => {},
                ChildKind::Internal => {
                    let (child_ref, tail) = match ChildRef::deserialize(rest, false) {
                        Ok(parsed) => parsed,
                        Err(e) => {
                            assert(parse_slots(bits as nat, n, rest@) == Err::<SlotsRead, ErrorView>(e@));
                            return Err(e);
                        },
                    };
                    node.insert_child_ref(i, child_ref);
                    rest = tail;
                },
                ChildKind::Leaf => {
                    let (child_ref, tail) = match ChildRef::deserialize(rest, true) {
                        Ok(parsed) => parsed,
                        Err(e) => {
                            assert(parse_slots(bits as nat, n, rest@) == Err::<SlotsRead, ErrorView>(e@));
                            return Err(e);
                        },
                    };
                    node.insert_child_ref(i, child_ref);
                    rest = tail;
                },
            }
            proof {
                if let Ok((slots, tail)) = whole {
                    let next = parse_slots(old_bits / 4, (n - 1) as nat, rest@);
                    assert(slots.skip(i as int).drop_first() =~= slots.skip(i as int + 1));
                    if let Ok((following, r)) = next {
                        let slot = if old_bits % 4 == 0 {
                            None
                        } else {
                            Some(node@[i as int]->Some_0)
                        };
                        assert(seq![slot] + following == slots.skip(i as int));
                        assert((seq![slot] + following).drop_first() =~= following);
                        assert(slots.skip(i as int)[0] == slots[i as int]);
                    }
                    assert(node@.take(i as int + 1) =~= slots.take(i as int + 1));
                }
            }
            bits = bits >> 2;
            i = i + 1;
        }
        proof {
            if let Ok((slots, tail)) = whole {
                assert(node@ =~= node@.take(CHILD_COUNT as int));
                assert(slots =~= slots.take(CHILD_COUNT as int));
            }
        }
        Ok(node)
    }

    /// Appends the encoding of this node to `buffer`: its bitmap, then its children in
    /// slot order.
    pub fn serialize(&self, buffer: &mut Vec<u8>)
        ensures
            final(buffer)@ == old(buffer)@ + internal_bytes(self@),
    {
        proof {
            self.lemma_view_len();
            lemma_pow4_sixteen();
        }
        let mut bitmap: u32 = 0;
        let mut i: usize = CHILD_COUNT;
        while i > 0
            invariant
                i <= CHILD_COUNT,
                self@.len() == CHILD_COUNT,
                pow4(CHILD_COUNT as nat) == 0x1_0000_0000,
                bitmap == bitmap_of(self@.skip(i as int)),
            decreases i,
        {
            i = i - 1;
            let kind = match self.child_ref(i as u8) {
                Some(child_ref) => child_ref.kind(),
                None => ChildKind::Empty,
            };
            proof {
                assert(self@.skip(i as int).drop_first() =~= self@.skip(i as int + 1));
                lemma_bitmap_bound(self@.skip(i as int));
                lemma_pow4_monotonic((CHILD_COUNT - i) as nat, CHILD_COUNT as nat);
            }
            bitmap = bitmap * 4 + kind.bits();
        }
        assert(self@.skip(0) =~= self@);

        let additional_capacity = 4 + CHILD_REF_ESTIMATED_CAPACITY * self.child_count();
        buffer.reserve(additional_capacity);
        buffer.push((bitmap % 256) as u8);
        buffer.push((bitmap / 256 % 256) as u8);
        buffer.push((bitmap / 65536 % 256) as u8);
        buffer.push((bitmap / 16777216 % 256) as u8);
        let ghost header = buffer@;
        assert(header =~= old(buffer)@ + u32_le_bytes(bitmap_of(self@)));

        let mut j: usize = 0;
        while j < CHILD_COUNT
            invariant
                j <= CHILD_COUNT,
                self@.len() == CHILD_COUNT,
                buffer@ == header + children_bytes(self@.take(j as int)),
            decreases CHILD_COUNT - j,
        {
            assert(self@.take(j as int + 1).drop_last() =~= self@.take(j as int));
            if let Some(child_ref) = self.child_ref(j as u8) {
                child_ref.serialize(buffer);
            }
            j = j + 1;
            assert(buffer@ =~= header + children_bytes(self@.take(j as int)));
        }
        assert(self@.take(CHILD_COUNT as int) =~= self@);
        assert(final(buffer)@ =~= old(buffer)@ + internal_bytes(self@));
    }
}

impl Node {
    /// Appends the encoding of this node to `buffer`, with no tag for its variant.
    pub fn serialize(&self, buffer: &mut Vec<u8>)
        ensures
            final(buffer)@ == old(buffer)@ + node_bytes(self@),
    {
        match self {
            Node::Internal(node) => node.serialize(buffer),
            Node::Leaf(leaf) => leaf.serialize(buffer),
        }
    }
}

impl Root {
    /// Decodes a root. With one leaf the node is tried as a leaf, then as an internal
    /// node; with more leaves it is an internal node. Bytes after the node are ignored.
    pub fn deserialize(bytes: &[u8]) -> (r: Result<Root, DeserializeError>)
        ensures
            match r {
                Ok(root) => parse_root(bytes@) == Ok::<RootView, ErrorView>(root@),
                Err(e) => parse_root(bytes@) == Err::<RootView, ErrorView>(e@),
            },
    {
        let (leaf_count, rest) = match read_leb128(bytes) {
            Ok(parsed) => parsed,
            Err(e) => return Err(DeserializeErrorKind::Leb128(e).with_context(ErrorContext::LeafCount)),
        };
        if leaf_count == 0 {
            return Ok(Root::Empty);
        }
        let node = if leaf_count == 1 {
            // A single leaf is sometimes stored as an internal node with one child. That
            // encoding is shorter than a leaf's, so the leaf is tried first.
            match LeafNode::deserialize(rest) {
                Ok(leaf) => Node::Leaf(leaf),
                Err(_) => match InternalNode::deserialize(rest) {
                    Ok(node) => Node::Internal(node),
                    Err(e) => return Err(e),
                },
            }
        } else {
            match InternalNode::deserialize(rest) {
                Ok(node) => Node::Internal(node),
                Err(e) => return Err(e),
            }
        };
        Ok(Root::new(leaf_count, node))
    }

    /// Appends the encoding of this root to `buffer`.
    pub fn serialize(&self, buffer: &mut Vec<u8>)
        ensures
            final(buffer)@ == old(buffer)@ + root_bytes(self@),
    {
        match self {
            Root::Empty => {
                write_leb128(buffer, 0);
            },
            Root::Filled { leaf_count, node } => {
                write_leb128(buffer, *leaf_count);
                node.serialize(buffer);
                assert(final(buffer)@ =~= old(buffer)@ + root_bytes(self@));
            },
        }
    }
}

} // verus!
