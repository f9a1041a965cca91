//! Properties of the codec that relate its encoders and decoders.

use vstd::arithmetic::div_mod::lemma_div_denominator;
use vstd::prelude::*;

use crate::errors::{error, ErrorView, KindView};
use crate::layout::{
    bitmap_of, child_ref_bytes, children_bytes, internal_bytes, leaf_bytes, lemma_bitmap_bound,
    lemma_pow4_positive, lemma_pow4_sixteen, node_bytes, parse_child_ref, parse_internal,
    parse_leaf, parse_root, parse_slots, pow4, root_bytes, slot_bytes, u32_from_le,
    u32_le_bytes,
};
use crate::types::{
    kind_bits, occupied_count, slot_kind, slots_sized, ChildRefView, InternalNode, LeafNode,
    LeafView, Node, NodeView, Root, RootView, CHILD_COUNT, HASH_SIZE, KEY_SIZE,
};
use crate::varint::{
    leb128_encoding, lemma_leb128_encoding_len, lemma_parse_leb128_encoding,
    lemma_parse_leb128_truncated,
};

verus! {

/// Decoding the encoding of a leaf gives the leaf back.
pub proof fn leaf_round_trip(leaf: LeafNode)
    ensures
        parse_leaf(leaf_bytes(leaf@)) == Ok::<LeafView, ErrorView>(leaf@),
{
    let s = leaf_bytes(leaf@);
    lemma_parse_leb128_encoding(leaf.leaf_index, Seq::empty());
    assert(s.skip((KEY_SIZE + HASH_SIZE) as int) =~= leb128_encoding(leaf.leaf_index as nat) + Seq::empty());
    assert(s.take(KEY_SIZE as int) =~= leaf@.full_key);
    assert(s.subrange(KEY_SIZE as int, (KEY_SIZE + HASH_SIZE) as int) =~= leaf@.value_hash);
}

/// Reading a child reference from its encoding gives it back, with the kind that is
/// passed in, and stops where the encoding ends.
pub proof fn lemma_child_ref_round_trip(c: ChildRefView, rest: Seq<u8>)
    requires
        c.hash.len() == HASH_SIZE,
    ensures
        parse_child_ref(child_ref_bytes(c) + rest, c.is_leaf) == Ok::<(ChildRefView, Seq<u8>), ErrorView>((c, rest)),
{
    let s = child_ref_bytes(c) + rest;
    lemma_parse_leb128_encoding(c.version, rest);
    assert(s.skip(HASH_SIZE as int) =~= leb128_encoding(c.version as nat) + rest);
    assert(s.take(HASH_SIZE as int) =~= c.hash);
}

/// The encoding of slots, read from the front: the first slot's bytes, then the others'.
pub proof fn lemma_children_bytes_front(slots: Seq<Option<ChildRefView>>)
    requires
        slots.len() > 0,
    ensures
        children_bytes(slots) == slot_bytes(slots[0]) + children_bytes(slots.drop_first()),
    decreases slots.len(),
{
    if slots.len() == 1 {
        assert(slots.drop_last() =~= Seq::<Option<ChildRefView>>::empty());
        assert(slots.drop_first() =~= Seq::<Option<ChildRefView>>::empty());
        assert(children_bytes(slots.drop_last()) == Seq::<u8>::empty());
        assert(children_bytes(slots.drop_first()) == Seq::<u8>::empty());
        assert(slots.last() == slots[0]);
        assert(children_bytes(slots) =~= slot_bytes(slots[0]) + children_bytes(slots.drop_first()));
    } else {
        lemma_children_bytes_front(slots.drop_last());
        assert(slots.drop_last().drop_first() =~= slots.drop_first().drop_last());
        assert(slots.drop_last()[0] == slots[0]);
        assert(slots.drop_first().last() == slots.last());
        assert(children_bytes(slots) =~= slot_bytes(slots[0]) + children_bytes(slots.drop_first()));
    }
}

/// Reading slots from their bitmap and their references gives them back.
pub proof fn lemma_slots_round_trip(slots: Seq<Option<ChildRefView>>, rest: Seq<u8>)
    requires
        slots_sized(slots),
    ensures
        parse_slots(bitmap_of(slots), slots.len(), children_bytes(slots) + rest)
            == Ok::<(Seq<Option<ChildRefView>>, Seq<u8>), ErrorView>((slots, rest)),
    decreases slots.len(),
{
    if slots.len() == 0 {
        assert(children_bytes(slots) + rest =~= rest);
        assert(slots =~= Seq::<Option<ChildRefView>>::empty());
    } else {
        let tail = slots.drop_first();
        assert(slots_sized(tail)) by {
            assert forall|i: int| 0 <= i < tail.len() && #[trigger] tail[i] is Some implies tail[i]->Some_0.hash.len() == HASH_SIZE by {
                assert(tail[i] == slots[i + 1]);
            }
        }
        lemma_slots_round_trip(tail, rest);
        lemma_children_bytes_front(slots);
        let b = bitmap_of(slots);
        assert(b % 4 == kind_bits(slot_kind(slots[0])) as nat);
        assert(b / 4 == bitmap_of(tail));
        assert(children_bytes(slots) + rest =~= slot_bytes(slots[0]) + (children_bytes(tail) + rest));
        match slots[0] {
            None => {
                assert(slots =~= seq![None] + tail);
            },
            Some(c) => {
                assert(slots[0] is Some);
                lemma_child_ref_round_trip(c, children_bytes(tail) + rest);
                assert(slots =~= seq![Some(c)] + tail);
            },
        }
    }
}

/// The little-endian bytes of a 32-bit number read back as that number.
pub proof fn lemma_u32_le_round_trip(x: nat, rest: Seq<u8>)
    requires
        x < 0x1_0000_0000,
    ensures
        u32_from_le(u32_le_bytes(x) + rest) == x,
{
    let y = x as u32;
    assert((y % 256) + 256 * ((y / 256) % 256) + 65536 * ((y / 65536) % 256) + 16777216 * ((y / 16777216) % 256) == y) by (bit_vector);
}

/// A node with a child has one in some slot.
pub proof fn lemma_occupied_has_child(slots: Seq<Option<ChildRefView>>)
    requires
        occupied_count(slots) > 0,
    ensures
        exists|i: int| 0 <= i < slots.len() && #[trigger] slots[i] is Some,
    decreases slots.len(),
{
    if slots.last() is Some {
        assert(slots[slots.len() - 1] is Some);
    } else {
        lemma_occupied_has_child(slots.drop_last());
        let i = choose|i: int| 0 <= i < slots.drop_last().len() && #[trigger] slots.drop_last()[i] is Some;
        assert(slots[i] is Some);
    }
}

/// The bitmap of slots with a child is not zero.
pub proof fn lemma_bitmap_nonzero(slots: Seq<Option<ChildRefView>>, i: int)
    requires
        0 <= i < slots.len(),
        slots[i] is Some,
    ensures
        bitmap_of(slots) > 0,
    decreases slots.len(),
{
    if i > 0 {
        assert(slots.drop_first()[i - 1] == slots[i]);
        lemma_bitmap_nonzero(slots.drop_first(), i - 1);
    }
}

/// Decoding the encoding of an internal node with at least one child gives the node
/// back.
pub proof fn internal_round_trip(node: InternalNode)
    requires
        occupied_count(node@) >= 1,
    ensures
        parse_internal(internal_bytes(node@)) == Ok::<Seq<Option<ChildRefView>>, ErrorView>(node@),
{
    let slots = node@;
    node.lemma_view_len();
    let b = bitmap_of(slots);
    lemma_bitmap_bound(slots);
    lemma_pow4_sixteen();
    lemma_occupied_has_child(slots);
    let i = choose|i: int| 0 <= i < slots.len() && #[trigger] slots[i] is Some;
    lemma_bitmap_nonzero(slots, i);
    let s = internal_bytes(slots);
    lemma_u32_le_round_trip(b, children_bytes(slots));
    assert(s.skip(4) =~= children_bytes(slots) + Seq::<u8>::empty());
    lemma_slots_round_trip(slots, Seq::empty());
}

/// The references of slots take at most 42 bytes per child.
pub proof fn lemma_children_bytes_len(slots: Seq<Option<ChildRefView>>)
    requires
        slots_sized(slots),
    ensures
        children_bytes(slots).len() <= 42 * occupied_count(slots),
    decreases slots.len(),
{
    if slots.len() > 0 {
        let init = slots.drop_last();
        assert(slots_sized(init)) by {
            assert forall|i: int| 0 <= i < init.len() && #[trigger] init[i] is Some implies init[i]->Some_0.hash.len() == HASH_SIZE by {
                assert(init[i] == slots[i]);
            }
        }
        lemma_children_bytes_len(init);
        if let Some(c) = slots.last() {
            assert(slots[slots.len() - 1] is Some);
            lemma_leb128_encoding_len(c.version);
        }
    }
}

/// The roots that the tree writes: an empty root, a single leaf, or an internal node
/// with children, which has exactly one child when the tree holds one leaf.
pub open spec fn root_is_canonical(r: RootView) -> bool {
    match r {
        RootView::Empty => true,
        RootView::Filled { leaf_count, node } => leaf_count >= 1 && match node {
            NodeView::Leaf(_) => leaf_count == 1,
            NodeView::Internal(slots) => occupied_count(slots) >= 1 && (leaf_count == 1
                ==> occupied_count(slots) == 1),
        },
    }
}

/// Decoding the encoding of a root that the tree writes gives the root back.
pub proof fn root_round_trip(root: Root)
    requires
        root_is_canonical(root@),
    ensures
        parse_root(root_bytes(root@)) == Ok::<RootView, ErrorView>(root@),
{
    match root {
        Root::Empty => {
            lemma_parse_leb128_encoding(0, Seq::empty());
            assert(root_bytes(root@) =~= leb128_encoding(0) + Seq::<u8>::empty());
        },
        Root::Filled { leaf_count, node } => {
            let s = root_bytes(root@);
            lemma_parse_leb128_encoding(leaf_count, node_bytes(node@));
            match node {
                Node::Leaf(leaf) => {
                    leaf_round_trip(leaf);
                },
                Node::Internal(n) => {
                    internal_round_trip(n);
                    if leaf_count == 1 {
                        n.lemma_view_len();
                        lemma_children_bytes_len(n@);
                        assert(parse_leaf(internal_bytes(n@)) is Err);
                    }
                },
            }
        },
    }
}

/// A tree with one leaf stored as an internal node with one child decodes as such: the
/// attempt to read a leaf first does not capture it.
pub proof fn root_fallback_internal(node: InternalNode)
    requires
        occupied_count(node@) == 1,
    ensures
        parse_root(root_bytes(Root::Filled { leaf_count: 1, node: Node::Internal(node) }@))
            == Ok::<RootView, ErrorView>(Root::Filled { leaf_count: 1, node: Node::Internal(node) }@),
{
    root_round_trip(Root::Filled { leaf_count: 1, node: Node::Internal(node) });
}

/// A tree with one leaf stored as that leaf decodes as such.
pub proof fn root_fallback_leaf(leaf: LeafNode)
    ensures
        parse_root(root_bytes(Root::Filled { leaf_count: 1, node: Node::Leaf(leaf) }@))
            == Ok::<RootView, ErrorView>(Root::Filled { leaf_count: 1, node: Node::Leaf(leaf) }@),
{
    root_round_trip(Root::Filled { leaf_count: 1, node: Node::Leaf(leaf) });
}

/// The number of one bits of `x`.
pub open spec fn popcount(x: nat) -> nat
    decreases x,
{
    if x == 0 {
        0
    } else {
        x % 2 + popcount(x / 2)
    }
}

proof fn lemma_popcount_split(x: nat)
    ensures
        popcount(x) == popcount(x % 4) + popcount(x / 4),
{
    reveal_with_fuel(popcount, 3);
    if x >= 2 {
        assert(popcount(x / 2) == (x / 2) % 2 + popcount(x / 2 / 2));
        assert(x / 2 / 2 == x / 4);
    }
}

proof fn lemma_occupied_count_front(x: Option<ChildRefView>, rest: Seq<Option<ChildRefView>>)
    ensures
        occupied_count(seq![x] + rest) == occupied_count(rest) + if x is Some {
            1nat
        } else {
            0nat
        },
    decreases rest.len(),
{
    let s = seq![x] + rest;
    if rest.len() == 0 {
        assert(s.drop_last() =~= Seq::<Option<ChildRefView>>::empty());
        assert(occupied_count(s.drop_last()) == 0);
        assert(occupied_count(rest) == 0);
        assert(s.last() == x);
    } else {
        lemma_occupied_count_front(x, rest.drop_last());
        assert(s.drop_last() =~= seq![x] + rest.drop_last());
        assert(s.last() == rest.last());
        assert(occupied_count(s) == occupied_count(s.drop_last()) + if s.last() is Some {
            1nat
        } else {
            0nat
        });
    }
}

proof fn lemma_parse_slots_popcount(bits: nat, n: nat, s: Seq<u8>)
    requires
        bits < pow4(n),
        parse_slots(bits, n, s) is Ok,
    ensures
        popcount(bits) == occupied_count(parse_slots(bits, n, s)->Ok_0.0),
    decreases n,
{
    reveal_with_fuel(popcount, 3);
    if n == 0 {
        assert(parse_slots(bits, n, s)->Ok_0.0 =~= Seq::<Option<ChildRefView>>::empty());
    } else {
        lemma_popcount_split(bits);
        assert(bits / 4 < pow4((n - 1) as nat));
        if bits % 4 == 0 {
            lemma_parse_slots_popcount(bits / 4, (n - 1) as nat, s);
            let rest = parse_slots(bits / 4, (n - 1) as nat, s)->Ok_0.0;
            lemma_occupied_count_front(None, rest);
        } else {
            let (c, s1) = parse_child_ref(s, bits % 4 == 2)->Ok_0;
            lemma_parse_slots_popcount(bits / 4, (n - 1) as nat, s1);
            let rest = parse_slots(bits / 4, (n - 1) as nat, s1)->Ok_0.0;
            lemma_occupied_count_front(Some(c), rest);
        }
    }
}

/// For a decoded internal node, the number of one bits in its bitmap is its number of
/// children.
pub proof fn bitmap_popcount(s: Seq<u8>)
    requires
        parse_internal(s) is Ok,
    ensures
        popcount(u32_from_le(s)) == occupied_count(parse_internal(s)->Ok_0),
{
    lemma_pow4_sixteen();
    lemma_parse_slots_popcount(u32_from_le(s), CHILD_COUNT as nat, s.skip(4));
}

/// The bitmap of slots, divided by `4^i`, is the bitmap of the slots from `i` on.
proof fn lemma_bitmap_shift(slots: Seq<Option<ChildRefView>>, i: nat)
    requires
        i <= slots.len(),
    ensures
        bitmap_of(slots) / pow4(i) == bitmap_of(slots.skip(i as int)),
    decreases i,
{
    if i == 0 {
        assert(slots.skip(0) =~= slots);
        assert(pow4(0) == 1);
    } else {
        assert(pow4(i) == 4 * pow4((i - 1) as nat));
        let tail = slots.drop_first();
        lemma_bitmap_shift(tail, (i - 1) as nat);
        assert(tail.skip(i - 1) =~= slots.skip(i as int));
        let b = bitmap_of(slots);
        assert(b / 4 == bitmap_of(tail));
        lemma_pow4_positive((i - 1) as nat);
        lemma_div_denominator(b as int, 4, pow4((i - 1) as nat) as int);
    }
}

/// In the encoding of an internal node, the two bits of the bitmap at positions `2i`
/// and `2i + 1`, that is the bitmap divided by `4^i` modulo 4, are the kind of slot `i`.
pub proof fn bitmap_slot_kinds(node: InternalNode, i: int)
    requires
        0 <= i < CHILD_COUNT,
    ensures
        (u32_from_le(internal_bytes(node@)) / pow4(i as nat)) % 4 == kind_bits(
            slot_kind(node@[i]),
        ) as nat,
{
    node.lemma_view_len();
    lemma_bitmap_bound(node@);
    lemma_pow4_sixteen();
    lemma_u32_le_round_trip(bitmap_of(node@), children_bytes(node@));
    lemma_bitmap_shift(node@, i as nat);
    assert(node@.skip(i)[0] == node@[i]);
}

/// An internal node whose bitmap is zero is refused as empty.
pub proof fn empty_internal_rejected(s: Seq<u8>)
    requires
        s.len() >= 4,
        s[0] == 0 && s[1] == 0 && s[2] == 0 && s[3] == 0,
    ensures
        parse_internal(s) == Err::<Seq<Option<ChildRefView>>, ErrorView>(
            error(KindView::EmptyInternalNode),
        ),
{
}

proof fn lemma_invalid_kind(bits: nat, i: nat, n: nat, s: Seq<u8>)
    requires
        i < n,
        (bits / pow4(i)) % 4 == 3,
        parse_slots(bits, i, s) is Ok,
    ensures
        parse_slots(bits, n, s) == Err::<(Seq<Option<ChildRefView>>, Seq<u8>), ErrorView>(
            error(KindView::InvalidChildKind),
        ),
    decreases i,
{
    if i == 0 {
        assert(pow4(0) == 1);
        assert(bits / 1 == bits);
    } else {
        assert(pow4(i) == 4 * pow4((i - 1) as nat));
        lemma_pow4_positive((i - 1) as nat);
        lemma_div_denominator(bits as int, 4, pow4((i - 1) as nat) as int);
        assert(bits / pow4(i) == (bits / 4) / pow4((i - 1) as nat));
        assert(bits % 4 != 3);
        if bits % 4 == 0 {
            lemma_invalid_kind(bits / 4, (i - 1) as nat, (n - 1) as nat, s);
        } else {
            let (c, s1) = parse_child_ref(s, bits % 4 == 2)->Ok_0;
            lemma_invalid_kind(bits / 4, (i - 1) as nat, (n - 1) as nat, s1);
        }
    }
}

/// An internal node with `11` in slot `i` is refused for an invalid child kind, when
/// the slots before `i` are read without error.
pub proof fn invalid_child_kind_rejected(s: Seq<u8>, i: nat)
    requires
        s.len() >= 4,
        i < CHILD_COUNT,
        (u32_from_le(s) / pow4(i)) % 4 == 3,
        parse_slots(u32_from_le(s), i, s.skip(4)) is Ok,
    ensures
        parse_internal(s) == Err::<Seq<Option<ChildRefView>>, ErrorView>(
            error(KindView::InvalidChildKind),
        ),
{
    lemma_invalid_kind(u32_from_le(s), i, CHILD_COUNT as nat, s.skip(4));
    lemma_pow4_positive(i);
    if u32_from_le(s) == 0 {
        assert(0nat / pow4(i) == 0) by (nonlinear_arith)
            requires
                pow4(i) > 0,
        {}
    }
}

/// The error of an input that ends too early: an unexpected end, or an unfinished
/// LEB128 integer.
pub open spec fn is_truncation(e: ErrorView) -> bool {
    e.kind is UnexpectedEof || e.kind is Leb128
}

/// Every proper prefix of a leaf's encoding is refused as truncated.
pub proof fn leaf_truncation_rejected(leaf: LeafNode, len: nat)
    requires
        len < leaf_bytes(leaf@).len(),
    ensures
        parse_leaf(leaf_bytes(leaf@).take(len as int)) matches Err(e) && is_truncation(e),
{
    let s = leaf_bytes(leaf@);
    let head = (KEY_SIZE + HASH_SIZE) as nat;
    if len >= head {
        let enc = leb128_encoding(leaf.leaf_index as nat);
        assert(s.take(len as int).skip(head as int) =~= enc.take(len - head));
        lemma_parse_leb128_truncated(leaf.leaf_index, (len - head) as nat);
    }
}

proof fn lemma_child_ref_truncated(c: ChildRefView, len: nat)
    requires
        c.hash.len() == HASH_SIZE,
        len < child_ref_bytes(c).len(),
    ensures
        parse_child_ref(child_ref_bytes(c).take(len as int), c.is_leaf) matches Err(e) && is_truncation(e),
{
    let s = child_ref_bytes(c);
    if len >= HASH_SIZE {
        let enc = leb128_encoding(c.version as nat);
        assert(s.take(len as int).skip(HASH_SIZE as int) =~= enc.take(len - HASH_SIZE));
        lemma_parse_leb128_truncated(c.version, (len - HASH_SIZE) as nat);
    }
}

proof fn lemma_slots_truncated(slots: Seq<Option<ChildRefView>>, len: nat)
    requires
        slots_sized(slots),
        len < children_bytes(slots).len(),
    ensures
        parse_slots(bitmap_of(slots), slots.len(), children_bytes(slots).take(len as int)) matches Err(e)
            && is_truncation(e),
    decreases slots.len(),
{
    let tail = slots.drop_first();
    if slots.len() == 0 {
        assert(children_bytes(slots) == Seq::<u8>::empty());
    } else {
        assert(slots_sized(tail)) by {
            assert forall|i: int| 0 <= i < tail.len() && #[trigger] tail[i] is Some implies tail[i]->Some_0.hash.len() == HASH_SIZE by {
                assert(tail[i] == slots[i + 1]);
            }
        }
        lemma_children_bytes_front(slots);
        let b = bitmap_of(slots);
        assert(b % 4 == kind_bits(slot_kind(slots[0])) as nat);
        assert(b / 4 == bitmap_of(tail));
        let first = slot_bytes(slots[0]);
        let s = children_bytes(slots).take(len as int);
        match slots[0] {
            None => {
                assert(s =~= children_bytes(tail).take(len as int));
                lemma_slots_truncated(tail, len);
            },
            Some(c) => {
                assert(slots[0] is Some);
                if len < first.len() {
                    assert(s =~= child_ref_bytes(c).take(len as int));
                    lemma_child_ref_truncated(c, len);
                } else {
                    let rest = children_bytes(tail).take(len - first.len());
                    assert(s =~= child_ref_bytes(c) + rest);
                    lemma_child_ref_round_trip(c, rest);
                    lemma_slots_truncated(tail, (len - first.len()) as nat);
                }
            },
        }
    }
}

/// Every proper prefix of the encoding of an internal node with a child is refused as
/// truncated.
pub proof fn internal_truncation_rejected(node: InternalNode, len: nat)
    requires
        occupied_count(node@) >= 1,
        len < internal_bytes(node@).len(),
    ensures
        parse_internal(internal_bytes(node@).take(len as int)) matches Err(e) && is_truncation(e),
{
    let slots = node@;
    let s = internal_bytes(slots).take(len as int);
    if len >= 4 {
        node.lemma_view_len();
        lemma_bitmap_bound(slots);
        lemma_pow4_sixteen();
        lemma_occupied_has_child(slots);
        let i = choose|i: int| 0 <= i < slots.len() && #[trigger] slots[i] is Some;
        lemma_bitmap_nonzero(slots, i);
        lemma_u32_le_round_trip(bitmap_of(slots), children_bytes(slots));
        assert(u32_from_le(s) == u32_from_le(internal_bytes(slots)));
        assert(s.skip(4) =~= children_bytes(slots).take(len - 4));
        lemma_slots_truncated(slots, (len - 4) as nat);
    }
}

/// Every proper prefix of the encoding of a root that the tree writes is refused as
/// truncated, but for a root holding a single leaf: there the bytes that remain are
/// read again as an internal node, whose own error is reported.
pub proof fn root_truncation_rejected(root: Root, len: nat)
    requires
        root_is_canonical(root@),
        !(root matches Root::Filled { node: Node::Leaf(_), .. }),
        len < root_bytes(root@).len(),
    ensures
        parse_root(root_bytes(root@).take(len as int)) matches Err(e) && is_truncation(e),
{
    let s = root_bytes(root@).take(len as int);
    match root {
        Root::Empty => {
            lemma_parse_leb128_truncated(0, len);
        },
        Root::Filled { leaf_count, node } => {
            let enc = leb128_encoding(leaf_count as nat);
            if len < enc.len() {
                assert(s =~= enc.take(len as int));
                lemma_parse_leb128_truncated(leaf_count, len);
            } else {
                if let Node::Internal(n) = node {
                    let rest = internal_bytes(n@).take(len - enc.len());
                    assert(s =~= enc + rest);
                    lemma_parse_leb128_encoding(leaf_count, rest);
                    internal_truncation_rejected(n, (len - enc.len()) as nat);
                    if leaf_count == 1 {
                        n.lemma_view_len();
                        lemma_children_bytes_len(n@);
                        assert(parse_leaf(rest) is Err);
                    }
                }
            }
        },
    }
}

/// Encoding what a leaf's encoding decodes to gives the same bytes again.
pub proof fn leaf_reencoding(leaf: LeafNode)
    ensures
        parse_leaf(leaf_bytes(leaf@)) matches Ok(l) && leaf_bytes(l) == leaf_bytes(leaf@),
{
    leaf_round_trip(leaf);
}

/// Encoding what an internal node's encoding decodes to gives the same bytes again.
pub proof fn internal_reencoding(node: InternalNode)
    requires
        occupied_count(node@) >= 1,
    ensures
        parse_internal(internal_bytes(node@)) matches Ok(n) && internal_bytes(n) == internal_bytes(
            node@,
        ),
{
    internal_round_trip(node);
}

/// Encoding what a root's encoding decodes to gives the same bytes again.
pub proof fn root_reencoding(root: Root)
    requires
        root_is_canonical(root@),
    ensures
        parse_root(root_bytes(root@)) matches Ok(r) && root_bytes(r) == root_bytes(root@),
{
    root_round_trip(root);
}

} // verus!
