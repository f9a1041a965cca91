//! The byte layouts of leaves, child references, internal nodes and roots, stated as
//! an encoding and a parser over byte sequences.

use vstd::prelude::*;

use crate::errors::{error, error_in, ErrorContext, ErrorView, KindView};
use crate::types::{
    kind_bits, slot_kind, ChildRefView, LeafView, NodeView, RootView, CHILD_COUNT, HASH_SIZE,
    KEY_SIZE,
};
use crate::varint::{leb128_encoding, parse_leb128};

verus! {

/// `[full_key: 32 bytes, big-endian][value_hash: 32 bytes][leaf_index: LEB128]`.
pub open spec fn leaf_bytes(l: LeafView) -> Seq<u8> {
    l.full_key + l.value_hash + leb128_encoding(l.leaf_index as nat)
}

/// Reads a leaf from the front of `s`; bytes after the leaf index are ignored.
pub open spec fn parse_leaf(s: Seq<u8>) -> Result<LeafView, ErrorView> {
    if s.len() < KEY_SIZE + HASH_SIZE {
        Err(error(KindView::UnexpectedEof))
    } else {
        match parse_leb128(s.skip((KEY_SIZE + HASH_SIZE) as int)) {
            Ok((leaf_index, _)) => Ok(
                LeafView {
                    full_key: s.take(KEY_SIZE as int),
                    value_hash: s.subrange(KEY_SIZE as int, (KEY_SIZE + HASH_SIZE) as int),
                    leaf_index,
                },
            ),
            Err(e) => Err(error_in(KindView::Leb128(e), ErrorContext::LeafIndex)),
        }
    }
}

/// `[hash: 32 bytes][version: LEB128]`; whether the child is a leaf is not written.
pub open spec fn child_ref_bytes(c: ChildRefView) -> Seq<u8> {
    c.hash + leb128_encoding(c.version as nat)
}

/// Reads a child reference from the front of `s`, giving it the kind `is_leaf` that
/// the parent's bitmap holds; on success also gives what follows.
pub open spec fn parse_child_ref(s: Seq<u8>, is_leaf: bool) -> Result<
    (ChildRefView, Seq<u8>),
    ErrorView,
> {
    if s.len() < HASH_SIZE {
        Err(error_in(KindView::UnexpectedEof, ErrorContext::ChildRefHash))
    } else {
        match parse_leb128(s.skip(HASH_SIZE as int)) {
            Ok((version, rest)) => Ok(
                (ChildRefView { hash: s.take(HASH_SIZE as int), version, is_leaf }, rest),
            ),
            Err(e) => Err(error_in(KindView::Leb128(e), ErrorContext::Version)),
        }
    }
}

/// The bytes of one slot: a child reference, or nothing for an empty slot.
pub open spec fn slot_bytes(slot: Option<ChildRefView>) -> Seq<u8> {
    match slot {
        Some(c) => child_ref_bytes(c),
        None => Seq::empty(),
    }
}

/// The references of the occupied slots, in slot order.
pub open spec fn children_bytes(slots: Seq<Option<ChildRefView>>) -> Seq<u8>
    decreases slots.len(),
{
    if slots.len() == 0 {
        Seq::empty()
    } else {
        children_bytes(slots.drop_last()) + slot_bytes(slots.last())
    }
}

/// The bitmap of `slots`: the kind of slot `i` in bits `2i` and `2i + 1`.
pub open spec fn bitmap_of(slots: Seq<Option<ChildRefView>>) -> nat
    decreases slots.len(),
{
    if slots.len() == 0 {
        0
    } else {
        kind_bits(slot_kind(slots[0])) as nat + 4 * bitmap_of(slots.drop_first())
    }
}

/// The four little-endian bytes of `x`.
pub open spec fn u32_le_bytes(x: nat) -> Seq<u8> {
    seq![
        (x % 256) as u8,
        (x / 256 % 256) as u8,
        (x / 65536 % 256) as u8,
        (x / 16777216 % 256) as u8,
    ]
}

/// The number whose little-endian bytes are the first four of `s`.
pub open spec fn u32_from_le(s: Seq<u8>) -> nat {
    s[0] as nat + 256 * s[1] as nat + 65536 * s[2] as nat + 16777216 * s[3] as nat
}

/// `[bitmap: 4 bytes, little-endian][the occupied slots' references, in slot order]`.
pub open spec fn internal_bytes(slots: Seq<Option<ChildRefView>>) -> Seq<u8> {
    u32_le_bytes(bitmap_of(slots)) + children_bytes(slots)
}

/// The slots read from an internal node's bytes, and the bytes that follow them.
pub type SlotsRead = (Seq<Option<ChildRefView>>, Seq<u8>);

/// Reads `n` slots whose kinds are the successive two-bit groups of `bits`, from the
/// low end; on success gives them and what follows.
pub open spec fn parse_slots(bits: nat, n: nat, s: Seq<u8>) -> Result<SlotsRead, ErrorView>
    decreases n,
{
    if n == 0 {
        Ok((Seq::empty(), s))
    } else if bits % 4 == 3 {
        Err(error(KindView::InvalidChildKind))
    } else if bits % 4 == 0 {
        match parse_slots(bits / 4, (n - 1) as nat, s) {
            Ok((slots, rest)) => Ok((seq![None] + slots, rest)),
            Err(e) => Err(e),
        }
    } else {
        match parse_child_ref(s, bits % 4 == 2) {
            Ok((c, s1)) => match parse_slots(bits / 4, (n - 1) as nat, s1) {
                Ok((slots, rest)) => Ok((seq![Some(c)] + slots, rest)),
                Err(e) => Err(e),
            },
            Err(e) => Err(e),
        }
    }
}

/// Reads an internal node from the front of `s`; bytes after its last child are ignored.
pub open spec fn parse_internal(s: Seq<u8>) -> Result<Seq<Option<ChildRefView>>, ErrorView> {
    if s.len() < 4 {
        Err(error_in(KindView::UnexpectedEof, ErrorContext::ChildrenMask))
    } else if u32_from_le(s) == 0 {
        Err(error(KindView::EmptyInternalNode))
    } else {
        match parse_slots(u32_from_le(s), CHILD_COUNT as nat, s.skip(4)) {
            Ok((slots, _)) => Ok(slots),
            Err(e) => Err(e),
        }
    }
}

/// The bytes of a node: a leaf or an internal node, with no tag to tell them apart.
pub open spec fn node_bytes(node: NodeView) -> Seq<u8> {
    match node {
        NodeView::Leaf(l) => leaf_bytes(l),
        NodeView::Internal(slots) => internal_bytes(slots),
    }
}

/// `[leaf_count: LEB128]`, then for a filled root its node.
pub open spec fn root_bytes(r: RootView) -> Seq<u8> {
    match r {
        RootView::Empty => leb128_encoding(0),
        RootView::Filled { leaf_count, node } => leb128_encoding(leaf_count as nat) + node_bytes(
            node,
        ),
    }
}

/// Reads a root. With one leaf the node is read as a leaf first and, where that fails,
/// as an internal node; with more leaves it is an internal node.
pub open spec fn parse_root(s: Seq<u8>) -> Result<RootView, ErrorView> {
    match parse_leb128(s) {
        Err(e) => Err(error_in(KindView::Leb128(e), ErrorContext::LeafCount)),
        Ok((leaf_count, rest)) => if leaf_count == 0 {
            Ok(RootView::Empty)
        } else if leaf_count == 1 && parse_leaf(rest) is Ok {
            Ok(RootView::Filled { leaf_count, node: NodeView::Leaf(parse_leaf(rest)->Ok_0) })
        } else {
            match parse_internal(rest) {
                Ok(slots) => Ok(RootView::Filled { leaf_count, node: NodeView::Internal(slots) }),
                Err(e) => Err(e),
            }
        },
    }
}

/// `4^n`.
pub open spec fn pow4(n: nat) -> nat
    decreases n,
{
    if n == 0 {
        1
    } else {
        4 * pow4((n - 1) as nat)
    }
}

pub proof fn lemma_pow4_positive(n: nat)
    ensures
        pow4(n) > 0,
    decreases n,
{
    if n > 0 {
        lemma_pow4_positive((n - 1) as nat);
    }
}

pub proof fn lemma_pow4_monotonic(a: nat, b: nat)
    requires
        a <= b,
    ensures
        pow4(a) <= pow4(b),
    decreases b,
{
    if a < b {
        lemma_pow4_monotonic(a, (b - 1) as nat);
    }
}

pub proof fn lemma_pow4_sixteen()
    ensures
        pow4(CHILD_COUNT as nat) == 0x1_0000_0000,
{
    reveal_with_fuel(pow4, 17);
}

/// The bitmap of `n` slots is below `4^n`.
pub proof fn lemma_bitmap_bound(slots: Seq<Option<ChildRefView>>)
    ensures
        bitmap_of(slots) < pow4(slots.len()),
    decreases slots.len(),
{
    if slots.len() > 0 {
        lemma_bitmap_bound(slots.drop_first());
    }
}

/// A successful read of `n` slots gives `n` slots.
pub proof fn lemma_parse_slots_len(bits: nat, n: nat, s: Seq<u8>)
    ensures
        parse_slots(bits, n, s) matches Ok((slots, _)) ==> slots.len() == n,
    decreases n,
{
    if n > 0 {
        if bits % 4 == 0 {
            lemma_parse_slots_len(bits / 4, (n - 1) as nat, s);
        } else if bits % 4 != 3 {
            if let Ok((c, s1)) = parse_child_ref(s, bits % 4 == 2) {
                lemma_parse_slots_len(bits / 4, (n - 1) as nat, s1);
            }
        }
    }
}

} // verus!
